use vstd::prelude::*;
use sha1::Digest;
use crate::account::Account;
use crate::grouping::{group_by_key, grouped, keyed, values_for};
use crate::text::{
    hex_upper, lemma_hex_upper_len, parse_unsigned, push_char, split_at_char, split_once,
    str_char_len_fits, str_eq, string_texts, to_hex_upper, unsigned_value,
};

verus! {

/// The SHA-1 digest of `data`.
pub uninterp spec fn sha1_digest(data: Seq<u8>) -> Seq<u8>;

/// Trusted: calls `<sha1::Sha1 as sha1::Digest>::digest`, which hashes `data`
/// in one step; its output type holds 20 bytes.
#[verifier::external_body]
fn sha1_bytes(data: &[u8]) -> (d: Vec<u8>)
    ensures
        d@ == sha1_digest(data@),
        d@.len() == 20,
{
    sha1::Sha1::digest(data).to_vec()
}

/// The upper-case hexadecimal SHA-1 digest of the UTF-8 bytes of a password.
pub open spec fn password_hex(password: Seq<char>) -> Seq<char> {
    hex_upper(sha1_digest(vstd::utf8::encode_utf8(password)))
}

/// The first five digits of the digest of an account's password.
pub open spec fn hash_prefix(a: Account) -> Seq<char> {
    password_hex(a@.password).take(5)
}

/// The digits of the digest of an account's password after the first five.
pub open spec fn hash_suffix(a: Account) -> Seq<char> {
    password_hex(a@.password).skip(5)
}

/// The digest text of a password is the hexadecimal text of the SHA-1
/// digest of all the UTF-8 bytes of the whole password, and the prefix and
/// suffix of an account's digest, put back together, give that text.
pub proof fn lemma_digest_of_whole_password(a: Account)
    requires
        password_hex(a@.password).len() >= 5,
    ensures
        password_hex(a@.password) == hex_upper(sha1_digest(vstd::utf8::encode_utf8(a@.password))),
        hash_prefix(a) + hash_suffix(a) == hex_upper(sha1_digest(vstd::utf8::encode_utf8(a@.password))),
{
    let h = hex_upper(sha1_digest(vstd::utf8::encode_utf8(a@.password)));
    assert(h.take(5) + h.skip(5) =~= h);
}

/// The digest of the account's password in upper-case hexadecimal, split
/// into its first five digits and the rest.
pub fn sha1(account: &Account) -> (r: (String, String))
    ensures
        r.0@ == hash_prefix(*account),
        r.1@ == hash_suffix(*account),
        r.0@.len() == 5,
        r.1@.len() == 35,
        password_hex(account@.password).len() == 40,
        r.0@ + r.1@ == password_hex(account@.password),
        r.0@ + r.1@ == hex_upper(sha1_digest(vstd::utf8::encode_utf8(account@.password))),
{
    let pw = account.password_text();
    let digest = sha1_bytes(pw.as_bytes());
    let hex = to_hex_upper(digest.as_slice());
    proof {
        lemma_hex_upper_len(digest@);
    }
    let ghost h = hex@;
    let text = hex.as_str();
    str_char_len_fits(text);
    let mut prefix = String::new();
    let mut suffix = String::new();
    let mut i: usize = 0;
    for c in it: text.chars()
        invariant
            i == it.index@,
            it.seq() == h,
            h.len() == 40,
            i <= 5 ==> prefix@ == h.take(i as int) && suffix@.len() == 0,
            i > 5 ==> prefix@ == h.take(5) && suffix@ == h.subrange(5, i as int),
    {
        assert(h.take(i + 1).last() == c);
        if i < 5 {
            push_char(&mut prefix, c);
            assert(prefix@ =~= h.take(i + 1));
        } else {
            push_char(&mut suffix, c);
            assert(suffix@ =~= h.subrange(5, i + 1));
        }
        i = i + 1;
    }
    assert(suffix@ =~= h.skip(5));
    assert(prefix@ + suffix@ =~= h);
    (prefix, suffix)
}

/// The digest of every account's password, split as [`sha1`] splits it,
/// next to the account, in the order of `accounts`.
pub fn all_sha1<'a>(accounts: &'a [Account]) -> (r: Vec<(String, String, &'a Account)>)
    ensures
        r.len() == accounts.len(),
        forall|i: int|
            0 <= i < accounts.len() ==> (#[trigger] r@[i]).0@ == hash_prefix(accounts@[i])
                && r@[i].1@ == hash_suffix(accounts@[i]) && *r@[i].2 == accounts@[i],
        forall|i: int|
            0 <= i < accounts.len() ==> (#[trigger] r@[i]).0@ + r@[i].1@ == hex_upper(
                sha1_digest(vstd::utf8::encode_utf8(accounts@[i]@.password)),
            ) && r@[i].0@.len() == 5,
{
    let mut r: Vec<(String, String, &'a Account)> = Vec::new();
    let n = accounts.len();
    let mut i: usize = 0;
    while i < n
        invariant
            n == accounts@.len(),
            i <= n,
            r.len() == i,
            forall|j: int|
                0 <= j < i ==> (#[trigger] r@[j]).0@ == hash_prefix(accounts@[j]) && r@[j].1@
                    == hash_suffix(accounts@[j]) && *r@[j].2 == accounts@[j],
            forall|j: int|
                0 <= j < i ==> (#[trigger] r@[j]).0@ + r@[j].1@ == hex_upper(
                    sha1_digest(vstd::utf8::encode_utf8(accounts@[j]@.password)),
                ) && r@[j].0@.len() == 5,
        decreases n - i,
    {
        let acc = &accounts[i];
        let (prefix, suffix) = sha1(acc);
        let ghost prev = r@;
        r.push((prefix, suffix, acc));
        assert forall|j: int|
            0 <= j < i + 1 implies (#[trigger] r@[j]).0@ == hash_prefix(accounts@[j]) && r@[j].1@
                == hash_suffix(accounts@[j]) && *r@[j].2 == accounts@[j] by {
            if j < i {
                assert(r@[j] == prev[j]);
            }
        }
        assert forall|j: int|
            0 <= j < i + 1 implies (#[trigger] r@[j]).0@ + r@[j].1@ == hex_upper(
                sha1_digest(vstd::utf8::encode_utf8(accounts@[j]@.password)),
            ) && r@[j].0@.len() == 5 by {
            if j < i {
                assert(r@[j] == prev[j]);
            }
        }
        i = i + 1;
    }
    r
}

/// The suffixes of the digests of the accounts whose digest starts with
/// `prefix`, each next to its account, in the order of `accounts`.
pub open spec fn entries_with_prefix(accounts: Seq<Account>, prefix: Seq<char>) -> Seq<(Seq<char>, Account)>
    decreases accounts.len(),
{
    if accounts.len() == 0 {
        seq![]
    } else {
        let rest = entries_with_prefix(accounts.drop_last(), prefix);
        if hash_prefix(accounts.last()) == prefix {
            rest.push((hash_suffix(accounts.last()), accounts.last()))
        } else {
            rest
        }
    }
}

/// The entries of a group seen through the text of their suffix.
pub open spec fn entries_view<'a>(v: Seq<(String, &'a Account)>) -> Seq<(Seq<char>, Account)> {
    v.map_values(|e: (String, &'a Account)| (e.0@, *e.1))
}

proof fn lemma_values_are_entries<'a>(
    accounts: Seq<Account>,
    pairs: Seq<(Seq<char>, (String, &'a Account))>,
    prefix: Seq<char>,
)
    requires
        pairs.len() == accounts.len(),
        forall|j: int|
            0 <= j < pairs.len() ==> #[trigger] pairs[j].0 == hash_prefix(accounts[j]) && pairs[j].1.0@
                == hash_suffix(accounts[j]) && *pairs[j].1.1 == accounts[j],
    ensures
        entries_view(values_for(pairs, prefix)) == entries_with_prefix(accounts, prefix),
    decreases pairs.len(),
{
    if pairs.len() > 0 {
        let n = pairs.len() - 1;
        assert(pairs[n].0 == hash_prefix(accounts[n]));
        lemma_values_are_entries(accounts.drop_last(), pairs.drop_last(), prefix);
        assert(entries_view(values_for(pairs, prefix)) =~= entries_with_prefix(accounts, prefix));
    }
}

/// Some group of `groups` has the key `key`.
pub open spec fn has_group<'a>(groups: Seq<(String, Vec<(String, &'a Account)>)>, key: Seq<char>) -> bool {
    exists|a: int| 0 <= a < groups.len() && (#[trigger] groups[a]).0@ == key
}

/// Gathers the digests of the accounts' passwords by their first five digits:
/// with each prefix, the suffix and account of every digest that starts with it.
pub fn sha1_by_prefix<'a>(accounts: &'a [Account]) -> (r: Vec<(String, Vec<(String, &'a Account)>)>)
    ensures
        forall|a: int, b: int| 0 <= a < b < r.len() ==> r@[a].0@ != r@[b].0@,
        forall|a: int|
            0 <= a < r.len() ==> entries_view(#[trigger] r@[a].1@) == entries_with_prefix(
                accounts@,
                r@[a].0@,
            ) && r@[a].1.len() > 0,
        forall|i: int| 0 <= i < accounts.len() ==> has_group(r@, hash_prefix(#[trigger] accounts@[i])),
{
    let sha1_vec = all_sha1(accounts);
    let n = sha1_vec.len();
    let mut pairs: Vec<(&str, (String, &'a Account))> = Vec::new();
    let mut i: usize = 0;
    while i < n
        invariant
            n == sha1_vec@.len(),
            n == accounts@.len(),
            i <= n,
            pairs@.len() == i,
            forall|j: int|
                0 <= j < n ==> (#[trigger] sha1_vec@[j]).0@ == hash_prefix(accounts@[j])
                    && sha1_vec@[j].1@ == hash_suffix(accounts@[j]) && *sha1_vec@[j].2 == accounts@[j],
            forall|j: int|
                0 <= j < i ==> #[trigger] pairs@[j].0@ == hash_prefix(accounts@[j]) && pairs@[j].1.0@
                    == hash_suffix(accounts@[j]) && *pairs@[j].1.1 == accounts@[j],
        decreases n - i,
    {
        let entry = &sha1_vec[i];
        let key = entry.0.as_str();
        let suffix = entry.1.clone();
        let ghost prev = pairs@;
        assert(sha1_vec@[i as int].0@ == hash_prefix(accounts@[i as int]));
        pairs.push((key, (suffix, entry.2)));
        assert forall|j: int|
            0 <= j < i + 1 implies #[trigger] pairs@[j].0@ == hash_prefix(accounts@[j]) && pairs@[j].1.0@
                == hash_suffix(accounts@[j]) && *pairs@[j].1.1 == accounts@[j] by {
            if j < i {
                assert(pairs@[j] == prev[j]);
                assert(prev[j].0@ == hash_prefix(accounts@[j]));
            }
        }
        i = i + 1;
    }
    let ghost kp = keyed(pairs@);
    assert forall|j: int|
        0 <= j < kp.len() implies #[trigger] kp[j].0 == hash_prefix(accounts@[j]) && kp[j].1.0@
            == hash_suffix(accounts@[j]) && *kp[j].1.1 == accounts@[j] by {
        assert(pairs@[j].0@ == hash_prefix(accounts@[j]));
    }
    let groups = group_by_key(pairs);
    let ghost ga = grouped(groups@);
    assert forall|k: Seq<char>| #[trigger] entries_view(values_for(kp, k)) == entries_with_prefix(accounts@, k) by {
        lemma_values_are_entries(accounts@, kp, k);
    }
    let m = groups.len();
    let mut r: Vec<(String, Vec<(String, &'a Account)>)> = Vec::new();
    let mut idx: usize = 0;
    for g in it: groups.into_iter()
        invariant
            idx == it.index@,
            it.seq() == groups@,
            m == groups@.len(),
            ga == grouped(groups@),
            r.len() == idx,
            forall|a: int| 0 <= a < idx ==> (#[trigger] r@[a]).0@ == ga[a].0 && r@[a].1@ == ga[a].1,
    {
        let (k, entries) = g;
        let ghost prev = r@;
        r.push((k.to_owned(), entries));
        assert forall|a: int| 0 <= a < idx + 1 implies (#[trigger] r@[a]).0@ == ga[a].0 && r@[a].1@ == ga[a].1 by {
            if a < idx {
                assert(r@[a] == prev[a]);
            }
        }
        idx = idx + 1;
    }
    proof {
        assert forall|a: int| 0 <= a < r.len() implies entries_view(#[trigger] r@[a].1@) == entries_with_prefix(
            accounts@,
            r@[a].0@,
        ) && r@[a].1.len() > 0 by {
            assert(ga[a].1 == values_for(kp, ga[a].0));
            assert(entries_view(values_for(kp, ga[a].0)) == entries_with_prefix(accounts@, ga[a].0));
        }
        assert forall|i: int| 0 <= i < accounts.len() implies has_group(r@, hash_prefix(#[trigger] accounts@[i])) by {
            assert(kp[i].0 == hash_prefix(accounts@[i]));
            let a = choose|a: int| 0 <= a < ga.len() && #[trigger] ga[a].0 == #[trigger] kp[i].0;
            assert(r@[a].0@ == ga[a].0);
            assert(0 <= a < r.len());
            assert(r@[a].0@ == hash_prefix(accounts@[i]));
        }
    }
    r
}

/// The suffix and count that a line `SUFFIX:COUNT` of a range answer gives:
/// the text before the first `':'` and the number after it.
pub open spec fn suffix_count(line: Seq<char>) -> Option<(Seq<char>, nat)> {
    if line.contains(':') {
        match unsigned_value(split_at_char(line, ':').1) {
            Some(v) => if v <= u64::MAX {
                Some((split_at_char(line, ':').0, v))
            } else {
                None
            },
            None => None,
        }
    } else {
        None
    }
}

/// The count of every suffix that `lines` give; a later line overrides an earlier one.
pub open spec fn counts_of(lines: Seq<Seq<char>>) -> Map<Seq<char>, nat>
    decreases lines.len(),
{
    if lines.len() == 0 {
        Map::empty()
    } else {
        let m = counts_of(lines.drop_last());
        match suffix_count(lines.last()) {
            Some(e) => m.insert(e.0, e.1),
            None => m,
        }
    }
}

/// The suffix-to-count map that a list of entries stands for.
pub open spec fn entries_map(entries: Seq<(String, u64)>) -> Map<Seq<char>, nat>
    decreases entries.len(),
{
    if entries.len() == 0 {
        Map::empty()
    } else {
        entries_map(entries.drop_last()).insert(entries.last().0@, entries.last().1 as nat)
    }
}

/// No suffix occurs twice among `entries`.
pub open spec fn distinct_suffixes(entries: Seq<(String, u64)>) -> bool {
    forall|a: int, b: int| 0 <= a < b < entries.len() ==> entries[a].0@ != entries[b].0@
}

proof fn lemma_entries_map_update(entries: Seq<(String, u64)>, j: int, e: (String, u64))
    requires
        distinct_suffixes(entries),
        0 <= j < entries.len(),
        entries[j].0@ == e.0@,
    ensures
        entries_map(entries.update(j, e)) == entries_map(entries).insert(e.0@, e.1 as nat),
        distinct_suffixes(entries.update(j, e)),
    decreases entries.len(),
{
    let u = entries.update(j, e);
    assert(u.drop_last() =~= if j == entries.len() - 1 {
        entries.drop_last()
    } else {
        entries.drop_last().update(j, e)
    });
    if j < entries.len() - 1 {
        lemma_entries_map_update(entries.drop_last(), j, e);
        assert(entries.last().0@ != e.0@);
    }
    assert(entries_map(u) =~= entries_map(entries).insert(e.0@, e.1 as nat));
}

/// Reads the lines `SUFFIX:COUNT` of a range answer into the count of
/// every suffix; `None` when some line is not of that form.
pub fn suffix_counts(lines: &[String]) -> (r: Option<Vec<(String, u64)>>)
    ensures
        r is Some <==> forall|i: int| 0 <= i < lines.len() ==> suffix_count((#[trigger] lines@[i])@) is Some,
        r matches Some(v) ==> distinct_suffixes(v@) && entries_map(v@) == counts_of(string_texts(lines@)),
{
    let ghost texts = string_texts(lines@);
    let mut counts: Vec<(String, u64)> = Vec::new();
    let n = lines.len();
    let mut i: usize = 0;
    while i < n
        invariant
            n == lines@.len(),
            texts == string_texts(lines@),
            i <= n,
            forall|k: int| 0 <= k < i ==> suffix_count((#[trigger] lines@[k])@) is Some,
            distinct_suffixes(counts@),
            entries_map(counts@) == counts_of(texts.take(i as int)),
        decreases n - i,
    {
        let line = lines[i].as_str();
        assert(texts.take(i + 1).drop_last() =~= texts.take(i as int));
        assert(texts.take(i + 1).last() == line@);
        let (suffix, count_text) = match split_once(line, ':') {
            Some(p) => p,
            None => {
                return None;
            },
        };
        let count = match parse_unsigned(count_text, u64::MAX) {
            Some(c) => c,
            None => {
                return None;
            },
        };
        assert(suffix_count(line@) == Some((suffix@, count as nat)));
        let mut j: usize = 0;
        while j < counts.len() && !str_eq(counts[j].0.as_str(), suffix)
            invariant
                j <= counts.len(),
                forall|a: int| 0 <= a < j ==> counts@[a].0@ != suffix@,
            decreases counts.len() - j,
        {
            j = j + 1;
        }
        let entry = (suffix.to_owned(), count);
        if j < counts.len() {
            proof {
                lemma_entries_map_update(counts@, j as int, entry);
            }
            counts.set(j, entry);
        } else {
            let ghost prev = counts@;
            counts.push(entry);
            assert(counts@.drop_last() =~= prev);
        }
        i = i + 1;
    }
    assert(texts.take(n as int) =~= texts);
    Some(counts)
}

/// How many times the digest suffix `suffix` was seen, by the counts of a
/// range answer (a later entry for a suffix overrides an earlier one);
/// `None` when it was not seen.
pub fn leak_count(counts: &[(String, u64)], suffix: &str) -> (r: Option<u64>)
    ensures
        r matches Some(c) ==> entries_map(counts@).contains_key(suffix@) && entries_map(counts@)[suffix@]
            == c as nat,
        r is None ==> !entries_map(counts@).contains_key(suffix@),
{
    let n = counts.len();
    let mut found: Option<u64> = None;
    let mut i: usize = 0;
    while i < n
        invariant
            n == counts@.len(),
            i <= n,
            found matches Some(c) ==> entries_map(counts@.take(i as int)).contains_key(suffix@)
                && entries_map(counts@.take(i as int))[suffix@] == c as nat,
            found is None ==> !entries_map(counts@.take(i as int)).contains_key(suffix@),
        decreases n - i,
    {
        let entry = &counts[i];
        assert(counts@.take(i + 1).drop_last() =~= counts@.take(i as int));
        assert(counts@.take(i + 1).last() == *entry);
        if str_eq(entry.0.as_str(), suffix) {
            found = Some(entry.1);
        }
        i = i + 1;
    }
    assert(counts@.take(n as int) =~= counts@);
    found
}

/// The accounts of `entries` whose digest suffix `counts` has, each with its
/// count, in the order of `entries`.
pub open spec fn leaks<'a>(entries: Seq<(String, &'a Account)>, counts: Map<Seq<char>, nat>) -> Seq<(Account, nat)>
    decreases entries.len(),
{
    if entries.len() == 0 {
        seq![]
    } else {
        let rest = leaks(entries.drop_last(), counts);
        let e = entries.last();
        if counts.contains_key(e.0@) {
            rest.push((*e.1, counts[e.0@]))
        } else {
            rest
        }
    }
}

/// `leaked` lists, at the increasing positions `js` of `entries`, exactly the
/// entries whose suffix `counts` holds, each as its own account with the
/// count of its suffix.
pub open spec fn leak_listing<'a>(
    entries: Seq<(String, &'a Account)>,
    counts: Map<Seq<char>, nat>,
    leaked: Seq<(Account, nat)>,
    js: Seq<int>,
) -> bool {
    &&& js.len() == leaked.len()
    &&& forall|k: int|
        0 <= k < js.len() ==> 0 <= #[trigger] js[k] < entries.len() && counts.contains_key(
            entries[js[k]].0@,
        ) && leaked[k] == (*entries[js[k]].1, counts[entries[js[k]].0@])
    &&& forall|k: int, l: int| 0 <= k < l < js.len() ==> js[k] < js[l]
    &&& forall|j: int|
        0 <= j < entries.len() && counts.contains_key(#[trigger] entries[j].0@) ==> js.contains(j)
}

/// The positions of the entries whose suffix `counts` holds.
spec fn known_positions<'a>(entries: Seq<(String, &'a Account)>, counts: Map<Seq<char>, nat>) -> Seq<int>
    decreases entries.len(),
{
    if entries.len() == 0 {
        seq![]
    } else {
        let rest = known_positions(entries.drop_last(), counts);
        if counts.contains_key(entries.last().0@) {
            rest.push(entries.len() - 1)
        } else {
            rest
        }
    }
}

proof fn lemma_known_positions<'a>(entries: Seq<(String, &'a Account)>, counts: Map<Seq<char>, nat>)
    ensures
        leak_listing(entries, counts, leaks(entries, counts), known_positions(entries, counts)),
        forall|k: int|
            0 <= k < known_positions(entries, counts).len() ==> #[trigger] known_positions(
                entries,
                counts,
            )[k] < entries.len(),
    decreases entries.len(),
{
    if entries.len() > 0 {
        let n = entries.len() - 1;
        let init = entries.drop_last();
        lemma_known_positions(init, counts);
        let js0 = known_positions(init, counts);
        let js = known_positions(entries, counts);
        let l0 = leaks(init, counts);
        let l = leaks(entries, counts);
        assert forall|k: int| 0 <= k < js0.len() implies entries[#[trigger] js0[k]] == init[js0[k]] by {}
        if counts.contains_key(entries[n].0@) {
            assert forall|k: int|
                0 <= k < js.len() implies 0 <= #[trigger] js[k] < entries.len() && counts.contains_key(
                entries[js[k]].0@,
            ) && l[k] == (*entries[js[k]].1, counts[entries[js[k]].0@]) by {
                if k < js0.len() {
                    assert(js[k] == js0[k]);
                    assert(entries[js0[k]] == init[js0[k]]);
                }
            }
            assert forall|j: int|
                0 <= j < entries.len() && counts.contains_key(#[trigger] entries[j].0@) implies js.contains(j) by {
                if j < n {
                    assert(entries[j] == init[j]);
                    let k = choose|k: int| 0 <= k < js0.len() && js0[k] == j;
                    assert(js[k] == j);
                } else {
                    assert(js[js.len() - 1] == j);
                }
            }
        } else {
            assert forall|k: int|
                0 <= k < js.len() implies 0 <= #[trigger] js[k] < entries.len() && counts.contains_key(
                entries[js[k]].0@,
            ) && l[k] == (*entries[js[k]].1, counts[entries[js[k]].0@]) by {
                assert(entries[js0[k]] == init[js0[k]]);
            }
            assert forall|j: int|
                0 <= j < entries.len() && counts.contains_key(#[trigger] entries[j].0@) implies js.contains(j) by {
                assert(j != n);
                assert(entries[j] == init[j]);
            }
        }
    }
}

/// The leaked accounts of a group are exactly its entries whose digest suffix
/// the counts hold, in their order, each reported as the entry's own account
/// with the count of that entry's suffix.
pub proof fn lemma_leaks_are_own_accounts<'a>(
    entries: Seq<(String, &'a Account)>,
    counts: Map<Seq<char>, nat>,
)
    ensures
        exists|js: Seq<int>| #[trigger] leak_listing(entries, counts, leaks(entries, counts), js),
{
    lemma_known_positions(entries, counts);
    let js = known_positions(entries, counts);
    assert(leak_listing(entries, counts, leaks(entries, counts), js));
}

/// Leaked accounts seen as accounts and counts.
pub open spec fn leaked_view<'a>(r: Seq<(&'a Account, u64)>) -> Seq<(Account, nat)> {
    r.map_values(|p: (&'a Account, u64)| (*p.0, p.1 as nat))
}

/// The accounts of a prefix group whose digest the range answer lists, each
/// with how often it was seen.
pub fn leaked_accounts<'a>(entries: &[(String, &'a Account)], counts: &[(String, u64)]) -> (r: Vec<(&'a Account, u64)>)
    ensures
        r@.map_values(|p: (&'a Account, u64)| (*p.0, p.1 as nat)) == leaks(entries@, entries_map(counts@)),
        exists|js: Seq<int>| #[trigger] leak_listing(entries@, entries_map(counts@), leaked_view(r@), js),
{
    let ghost m = entries_map(counts@);
    let mut r: Vec<(&'a Account, u64)> = Vec::new();
    let n = entries.len();
    let mut i: usize = 0;
    while i < n
        invariant
            n == entries@.len(),
            m == entries_map(counts@),
            i <= n,
            r@.map_values(|p: (&'a Account, u64)| (*p.0, p.1 as nat)) == leaks(entries@.take(i as int), m),
        decreases n - i,
    {
        let entry = &entries[i];
        assert(entries@.take(i + 1).drop_last() =~= entries@.take(i as int));
        assert(entries@.take(i + 1).last() == *entry);
        let ghost before = r@;
        match leak_count(counts, entry.0.as_str()) {
            Some(c) => {
                r.push((entry.1, c));
                assert(r@.map_values(|p: (&'a Account, u64)| (*p.0, p.1 as nat)) =~= before.map_values(
                    |p: (&'a Account, u64)| (*p.0, p.1 as nat),
                ).push((*entry.1, c as nat)));
            },
            None => {},
        }
        i = i + 1;
    }
    assert(entries@.take(n as int) =~= entries@);
    proof {
        lemma_leaks_are_own_accounts(entries@, m);
        assert(leaked_view(r@) == leaks(entries@, m));
    }
    r
}

/// The address of the range answer for the digests that start with `prefix`.
pub fn range_url(prefix: &str) -> (url: String)
    ensures
        url@ == "https://api.pwnedpasswords.com/range/"@ + prefix@,
{
    let mut url = "https://api.pwnedpasswords.com/range/".to_owned();
    url.append(prefix);
    url
}

} // verus!
