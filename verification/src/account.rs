use vstd::prelude::*;
use crate::error::Error;
use crate::grouping::{group_by_key, grouped, is_grouping, keyed, values_for};
use crate::text::{
    find_char, is_first_index, join_strs, join_with, lemma_first_index_unique, split_at_char, split_once,
};

verus! {

/// An account: a login and its password.
#[derive(Clone, Debug)]
pub struct Account {
    login: String,
    pub password: String,
}

/// What an account holds, as text.
pub struct AccountView {
    pub login: Seq<char>,
    pub password: Seq<char>,
}

impl View for Account {
    type V = AccountView;

    closed spec fn view(&self) -> AccountView {
        AccountView { login: self.login@, password: self.password@ }
    }
}

/// The login and password written in `s`: the text before and after its first `':'`.
pub open spec fn split_at_colon(s: Seq<char>) -> (Seq<char>, Seq<char>) {
    split_at_char(s, ':')
}

/// Reading back `login:password`, for a login without `':'`, gives the
/// login and the password again.
pub proof fn lemma_account_text_roundtrip(login: Seq<char>, password: Seq<char>)
    requires
        !login.contains(':'),
    ensures
        split_at_colon(login + seq![':'] + password) == (login, password),
{
    let s = login + seq![':'] + password;
    assert(s[login.len() as int] == ':');
    assert forall|j: int| 0 <= j < login.len() implies s[j] != ':' by {
        assert(s[j] == login[j]);
    }
    assert(is_first_index(s, ':', login.len() as int));
    let i = choose|i: int| is_first_index(s, ':', i);
    lemma_first_index_unique(s, ':', i, login.len() as int);
    assert(s.take(i) =~= login);
    assert(s.skip(i + 1) =~= password);
}

/// The logins of the accounts whose password is `password`, in order.
pub open spec fn logins_with(accounts: Seq<Account>, password: Seq<char>) -> Seq<Seq<char>>
    decreases accounts.len(),
{
    if accounts.len() == 0 {
        seq![]
    } else {
        let rest = logins_with(accounts.drop_last(), password);
        if accounts.last()@.password == password {
            rest.push(accounts.last()@.login)
        } else {
            rest
        }
    }
}

/// The texts of a sequence of string slices.
pub open spec fn texts<'a>(s: Seq<&'a str>) -> Seq<Seq<char>> {
    s.map_values(|x: &'a str| x@)
}

/// Pairs that hold, position by position, the password and login of `accounts`
/// give each password the logins of the accounts that use it.
proof fn lemma_values_are_logins<'a>(
    accounts: Seq<Account>,
    pairs: Seq<(Seq<char>, &'a str)>,
    password: Seq<char>,
)
    requires
        pairs.len() == accounts.len(),
        forall|j: int|
            0 <= j < pairs.len() ==> #[trigger] pairs[j].0 == accounts[j]@.password && pairs[j].1@
                == accounts[j]@.login,
    ensures
        texts(values_for(pairs, password)) == logins_with(accounts, password),
    decreases pairs.len(),
{
    if pairs.len() > 0 {
        let n = pairs.len() - 1;
        assert(pairs[n].0 == accounts[n]@.password);
        lemma_values_are_logins(accounts.drop_last(), pairs.drop_last(), password);
        assert(texts(values_for(pairs, password)) =~= logins_with(accounts, password));
    }
}

impl Account {
    /// Builds an account from a login and a password.
    pub fn new(login: &str, password: &str) -> (a: Self)
        ensures
            a@.login == login@,
            a@.password == password@,
    {
        Account { login: login.to_owned(), password: password.to_owned() }
    }

    /// The password of the account.
    pub fn password_text(&self) -> (s: &str)
        ensures
            s@ == self@.password,
    {
        self.password.as_str()
    }

    /// Builds an account from `login:password`; the login ends at the first `':'`.
    pub fn from_string(s: &str) -> (a: Self)
        requires
            s@.contains(':'),
        ensures
            a@.login == split_at_colon(s@).0,
            a@.password == split_at_colon(s@).1,
    {
        match split_once(s, ':') {
            Some((login, password)) => Account::new(login, password),
            // unreachable: `s` holds a ':'
            None => Account::new("", ""),
        }
    }

    /// Parses `login:password`, or fails with [`Error::NoColon`] when `s` holds no `':'`.
    pub fn from_str(s: &str) -> (r: Result<Account, Error>)
        ensures
            r is Ok <==> s@.contains(':'),
            r matches Ok(a) ==> a@.login == split_at_colon(s@).0 && a@.password
                == split_at_colon(s@).1,
            r matches Err(e) ==> e == Error::NoColon,
    {
        if find_char(s, ':').is_some() {
            Ok(Account::from_string(s))
        } else {
            Err(Error::NoColon)
        }
    }
}

impl Account {
    /// Parses one account per line, or fails with [`Error::NoColon`] at the
    /// first line that holds no `':'`.
    pub fn from_lines(lines: &[String]) -> (r: Result<Vec<Account>, Error>)
        ensures
            r is Ok <==> forall|i: int| 0 <= i < lines.len() ==> (#[trigger] lines@[i])@.contains(':'),
            r matches Ok(v) ==> v.len() == lines.len() && forall|i: int|
                0 <= i < lines.len() ==> (#[trigger] v@[i])@.login == split_at_colon(lines@[i]@).0
                    && v@[i]@.password == split_at_colon(lines@[i]@).1,
            r matches Err(e) ==> e == Error::NoColon,
    {
        let mut accounts: Vec<Account> = Vec::new();
        let n = lines.len();
        let mut i: usize = 0;
        while i < n
            invariant
                n == lines@.len(),
                i <= n,
                accounts@.len() == i,
                forall|j: int| 0 <= j < i ==> (#[trigger] lines@[j])@.contains(':'),
                forall|j: int|
                    0 <= j < i ==> (#[trigger] accounts@[j])@.login == split_at_colon(lines@[j]@).0
                        && accounts@[j]@.password == split_at_colon(lines@[j]@).1,
            decreases n - i,
        {
            let line = lines[i].as_str();
            match Account::from_str(line) {
                Ok(a) => {
                    accounts.push(a);
                },
                Err(e) => {
                    return Err(e);
                },
            }
            i = i + 1;
        }
        Ok(accounts)
    }

    /// Gathers the logins of the accounts by password, keeping only the
    /// passwords that more than one account uses.
    pub fn group<'a>(accounts: &'a [Account]) -> (groups: Vec<(&'a str, Vec<&'a str>)>)
        ensures
            forall|a: int, b: int| 0 <= a < b < groups.len() ==> groups@[a].0@ != groups@[b].0@,
            forall|a: int|
                0 <= a < groups.len() ==> texts(#[trigger] groups@[a].1@) == logins_with(
                    accounts@,
                    groups@[a].0@,
                ),
            forall|a: int| 0 <= a < groups.len() ==> #[trigger] groups@[a].1.len() >= 2,
            forall|i: int|
                0 <= i < accounts.len() && logins_with(accounts@, #[trigger] accounts@[i]@.password).len()
                    >= 2 ==> exists|a: int|
                    0 <= a < groups.len() && groups@[a].0@ == accounts@[i]@.password,
    {
        let mut pairs: Vec<(&'a str, &'a str)> = Vec::new();
        let n = accounts.len();
        let mut i: usize = 0;
        while i < n
            invariant
                n == accounts@.len(),
                i <= n,
                pairs@.len() == i,
                forall|j: int|
                    0 <= j < i ==> #[trigger] pairs@[j].0@ == accounts@[j]@.password && pairs@[j].1@
                        == accounts@[j]@.login,
            decreases n - i,
        {
            let ghost prev = pairs@;
            let acc = &accounts[i];
            let pw = acc.password.as_str();
            let lg = acc.login.as_str();
            assert(pw@ == accounts@[i as int]@.password);
            assert(lg@ == accounts@[i as int]@.login);
            pairs.push((pw, lg));
            assert forall|j: int|
                0 <= j < i + 1 implies #[trigger] pairs@[j].0@ == accounts@[j]@.password && pairs@[j].1@
                    == accounts@[j]@.login by {
                if j < i {
                    assert(pairs@[j] == prev[j]);
                    assert(prev[j].0@ == accounts@[j]@.password);
                }
            }
            i = i + 1;
        }
        let ghost kp = keyed(pairs@);
        assert forall|j: int|
            0 <= j < kp.len() implies #[trigger] kp[j].0 == accounts@[j]@.password && kp[j].1@
                == accounts@[j]@.login by {
            assert(pairs@[j].0@ == accounts@[j]@.password);
        }
        let all = group_by_key(pairs);
        let ghost ga = grouped(all@);
        assert forall|k: Seq<char>| #[trigger] texts(values_for(kp, k)) == logins_with(accounts@, k) by {
            lemma_values_are_logins(accounts@, kp, k);
        }
        let m = all.len();
        let mut groups: Vec<(&'a str, Vec<&'a str>)> = Vec::new();
        let ghost mut src: Seq<int> = seq![];
        let mut idx: usize = 0;
        for g in it: all.into_iter()
            invariant
                idx == it.index@,
                it.seq() == all@,
                m == all@.len(),
                ga == grouped(all@),
                is_grouping(kp, ga),
                forall|k: Seq<char>| #[trigger] texts(values_for(kp, k)) == logins_with(accounts@, k),
                src.len() == groups@.len(),
                forall|a: int| 0 <= a < src.len() ==> 0 <= #[trigger] src[a] < idx,
                forall|a: int, b: int| 0 <= a < b < src.len() ==> src[a] < src[b],
                forall|a: int| 0 <= a < src.len() ==> #[trigger] groups@[a] == all@[src[a]],
                forall|a: int| 0 <= a < src.len() ==> #[trigger] groups@[a].1.len() >= 2,
                forall|b: int|
                    0 <= b < idx && #[trigger] all@[b].1.len() >= 2 ==> exists|a: int|
                        0 <= a < src.len() && src[a] == b,
        {
            let ghost prev = groups@;
            let ghost old_src = src;
            if g.1.len() > 1 {
                groups.push(g);
                proof {
                    src = src.push(idx as int);
                    assert forall|a: int| 0 <= a < src.len() - 1 implies #[trigger] groups@[a] == all@[src[a]] by {
                        assert(groups@[a] == prev[a]);
                    }
                    assert forall|b: int|
                        0 <= b < idx + 1 && #[trigger] all@[b].1.len() >= 2 implies exists|a: int|
                        0 <= a < src.len() && src[a] == b by {
                        if b == idx {
                            assert(src[src.len() - 1] == b);
                        } else {
                            let a = choose|a: int| 0 <= a < old_src.len() && old_src[a] == b;
                            assert(src[a] == b);
                        }
                    }
                }
            }
            idx = idx + 1;
        }
        proof {
            assert forall|a: int, b: int| 0 <= a < b < groups.len() implies groups@[a].0@ != groups@[b].0@ by {
                assert(groups@[a] == all@[src[a]]);
                assert(groups@[b] == all@[src[b]]);
                assert(ga[src[a]].0 != ga[src[b]].0);
            }
            assert forall|a: int|
                0 <= a < groups.len() implies texts(#[trigger] groups@[a].1@) == logins_with(
                    accounts@,
                    groups@[a].0@,
                ) by {
                assert(groups@[a] == all@[src[a]]);
                assert(ga[src[a]].1 == values_for(kp, ga[src[a]].0));
                assert(texts(values_for(kp, ga[src[a]].0)) == logins_with(accounts@, ga[src[a]].0));
            }
            assert forall|i: int|
                0 <= i < accounts.len() && logins_with(accounts@, #[trigger] accounts@[i]@.password).len()
                    >= 2 implies exists|a: int|
                    0 <= a < groups.len() && groups@[a].0@ == accounts@[i]@.password by {
                assert(kp[i].0 == accounts@[i]@.password);
                let b = choose|b: int| 0 <= b < ga.len() && #[trigger] ga[b].0 == #[trigger] kp[i].0;
                assert(ga[b].1 == values_for(kp, ga[b].0));
                assert(texts(values_for(kp, ga[b].0)) == logins_with(accounts@, ga[b].0));
                assert(all@[b].1.len() >= 2);
                let a = choose|a: int| 0 <= a < src.len() && src[a] == b;
                assert(groups@[a] == all@[b]);
            }
        }
        groups
    }
}

/// The line that reports a password shared by several logins.
pub fn group_report(password: &str, logins: &[&str]) -> (s: String)
    ensures
        s@ == "Password "@ + password@ + " used by "@ + join_with(texts(logins@), ", "@),
{
    let mut s = "Password ".to_owned();
    s.append(password);
    s.append(" used by ");
    let joined = join_strs(logins, ", ");
    s.append(joined.as_str());
    assert(logins@.map_values(|p: &str| p@) =~= texts(logins@));
    s
}

impl std::str::FromStr for Account {
    type Err = Error;

    fn from_str(s: &str) -> (r: Result<Self, Self::Err>)
        ensures
            r is Ok <==> s@.contains(':'),
            r matches Ok(a) ==> a@.login == split_at_colon(s@).0 && a@.password
                == split_at_colon(s@).1,
            r matches Err(e) ==> e == Error::NoColon,
    {
        Account::from_str(s)
    }
}

} // verus!
