use vstd::prelude::*;

verus! {

/// Appends one character to a string.
///
/// Trusted: calls `String::push` from std, whose documentation says it
/// appends the given char to the end of the string.
#[verifier::external_body]
pub(crate) fn push_char(s: &mut String, c: char)
    ensures
        final(s)@ == old(s)@.push(c),
{
    s.push(c)
}

/// The text before and after the first `c` in `s`.
pub open spec fn split_at_char(s: Seq<char>, c: char) -> (Seq<char>, Seq<char>) {
    let i = choose|i: int| is_first_index(s, c, i);
    (s.take(i), s.skip(i + 1))
}

/// Every char takes at least one byte in UTF-8.
pub proof fn lemma_chars_le_utf8_bytes(s: Seq<char>)
    ensures
        s.len() <= vstd::utf8::encode_utf8(s).len(),
    decreases s.len(),
{
    if s.len() > 0 {
        lemma_chars_le_utf8_bytes(s.drop_first());
    }
}

/// The number of chars of a string slice fits in a `usize`.
pub fn str_char_len_fits(s: &str)
    ensures
        s@.len() <= usize::MAX,
{
    let b = s.as_bytes();
    let _n = b.len();
    proof {
        lemma_chars_le_utf8_bytes(s@);
    }
}

/// `i` is the position of the first `c` in `s`.
pub open spec fn is_first_index(s: Seq<char>, c: char, i: int) -> bool {
    &&& 0 <= i < s.len()
    &&& s[i] == c
    &&& forall|j: int| 0 <= j < i ==> s[j] != c
}

/// The first position of a char is unique.
pub proof fn lemma_first_index_unique(s: Seq<char>, c: char, i: int, j: int)
    requires
        is_first_index(s, c, i),
        is_first_index(s, c, j),
    ensures
        i == j,
{
}

/// The first position of `c` in `s`, if `c` occurs in `s`.
pub fn find_char(s: &str, c: char) -> (r: Option<usize>)
    ensures
        r matches Some(i) ==> is_first_index(s@, c, i as int),
        r is None ==> !s@.contains(c),
{
    str_char_len_fits(s);
    let mut i: usize = 0;
    for x in it: s.chars()
        invariant
            i == it.index@,
            it.seq() == s@,
            s@.len() <= usize::MAX,
            forall|j: int| 0 <= j < i ==> s@[j] != c,
    {
        if x == c {
            return Some(i);
        }
        i = i + 1;
    }
    None
}


/// Splits `s` at its first `c`, if `c` occurs in `s`.
pub fn split_once<'a>(s: &'a str, c: char) -> (r: Option<(&'a str, &'a str)>)
    ensures
        r is Some <==> s@.contains(c),
        r matches Some(p) ==> (p.0@, p.1@) == split_at_char(s@, c),
{
    match find_char(s, c) {
        Some(i) => {
            proof {
                let k = choose|k: int| is_first_index(s@, c, k);
                lemma_first_index_unique(s@, c, k, i as int);
            }
            let len = s.unicode_len();
            Some((s.substring_char(0, i), s.substring_char(i + 1, len)))
        },
        None => None,
    }
}

/// Equality of two string slices, byte by byte: UTF-8 encodes different
/// texts as different bytes.
pub fn str_eq(a: &str, b: &str) -> (r: bool)
    ensures
        r == (a@ == b@),
{
    let x = a.as_bytes();
    let y = b.as_bytes();
    proof {
        vstd::utf8::encode_utf8_decode_utf8(a@);
        vstd::utf8::encode_utf8_decode_utf8(b@);
    }
    let n = x.len();
    if n != y.len() {
        return false;
    }
    let mut i: usize = 0;
    while i < n
        invariant
            n == x@.len(),
            n == y@.len(),
            x@ == vstd::utf8::encode_utf8(a@),
            y@ == vstd::utf8::encode_utf8(b@),
            vstd::utf8::decode_utf8(x@) == a@,
            vstd::utf8::decode_utf8(y@) == b@,
            i <= n,
            forall|k: int| 0 <= k < i ==> x@[k] == y@[k],
        decreases n - i,
    {
        if x[i] != y[i] {
            return false;
        }
        i = i + 1;
    }
    assert(x@ =~= y@);
    true
}


/// The sixteen digits of upper-case hexadecimal, the first ten being the decimal digits.
pub open spec fn digit_chars() -> Seq<char> {
    seq!['0', '1', '2', '3', '4', '5', '6', '7', '8', '9', 'A', 'B', 'C', 'D', 'E', 'F']
}

/// The digit char for a value below sixteen.
pub fn digit_char(d: u8) -> (c: char)
    requires
        d < 16,
    ensures
        c == digit_chars()[d as int],
{
    match d {
        0 => '0',
        1 => '1',
        2 => '2',
        3 => '3',
        4 => '4',
        5 => '5',
        6 => '6',
        7 => '7',
        8 => '8',
        9 => '9',
        10 => 'A',
        11 => 'B',
        12 => 'C',
        13 => 'D',
        14 => 'E',
        _ => 'F',
    }
}

/// The decimal text of `n`, without leading zeros.
pub open spec fn decimal(n: nat) -> Seq<char>
    decreases n,
{
    if n < 10 {
        seq![digit_chars()[n as int]]
    } else {
        decimal(n / 10).push(digit_chars()[(n % 10) as int])
    }
}

/// Appends the decimal text of `n` to `s`.
pub fn push_decimal(s: &mut String, n: u64)
    ensures
        final(s)@ == old(s)@ + decimal(n as nat),
    decreases n,
{
    if n >= 10 {
        push_decimal(s, n / 10);
    }
    push_char(s, digit_char((n % 10) as u8));
    assert(final(s)@ =~= old(s)@ + decimal(n as nat));
}

/// Two upper-case hexadecimal digits for a byte.
pub open spec fn hex_byte(b: u8) -> Seq<char> {
    seq![digit_chars()[(b / 16) as int], digit_chars()[(b % 16) as int]]
}

/// Upper-case hexadecimal text of a sequence of bytes, two digits per byte.
pub open spec fn hex_upper(bytes: Seq<u8>) -> Seq<char>
    decreases bytes.len(),
{
    if bytes.len() == 0 {
        seq![]
    } else {
        hex_upper(bytes.drop_last()) + hex_byte(bytes.last())
    }
}

/// Every byte gives two digits.
pub proof fn lemma_hex_upper_len(bytes: Seq<u8>)
    ensures
        hex_upper(bytes).len() == 2 * bytes.len(),
    decreases bytes.len(),
{
    if bytes.len() > 0 {
        lemma_hex_upper_len(bytes.drop_last());
    }
}

/// Digit `2i` of the hexadecimal text is the high half of byte `i`, and
/// digit `2i + 1` its low half.
pub proof fn lemma_hex_upper_digits(bytes: Seq<u8>)
    ensures
        hex_upper(bytes).len() == 2 * bytes.len(),
        forall|i: int|
            0 <= i < bytes.len() ==> hex_upper(bytes)[2 * i] == digit_chars()[(bytes[i] / 16) as int]
                && hex_upper(bytes)[2 * i + 1] == digit_chars()[(bytes[i] % 16) as int],
    decreases bytes.len(),
{
    lemma_hex_upper_len(bytes);
    if bytes.len() > 0 {
        let init = bytes.drop_last();
        lemma_hex_upper_digits(init);
        lemma_hex_upper_len(init);
        let h = hex_upper(bytes);
        let h0 = hex_upper(init);
        assert(h == h0 + hex_byte(bytes.last()));
        assert forall|i: int|
            0 <= i < bytes.len() implies h[2 * i] == digit_chars()[(bytes[i] / 16) as int] && h[2 * i + 1]
                == digit_chars()[(bytes[i] % 16) as int] by {
            if i < init.len() {
                assert(bytes[i] == init[i]);
                assert(h[2 * i] == h0[2 * i]);
                assert(h[2 * i + 1] == h0[2 * i + 1]);
            }
        }
    }
}

/// Upper-case hexadecimal text of `bytes`.
pub fn to_hex_upper(bytes: &[u8]) -> (s: String)
    ensures
        s@ == hex_upper(bytes@),
{
    let mut s = String::new();
    let n = bytes.len();
    let mut i: usize = 0;
    while i < n
        invariant
            n == bytes@.len(),
            i <= n,
            s@ == hex_upper(bytes@.take(i as int)),
        decreases n - i,
    {
        let b = bytes[i];
        push_char(&mut s, digit_char(b / 16));
        push_char(&mut s, digit_char(b % 16));
        assert(bytes@.take(i + 1).drop_last() =~= bytes@.take(i as int));
        assert(s@ =~= hex_upper(bytes@.take(i + 1)));
        i = i + 1;
    }
    assert(bytes@.take(n as int) =~= bytes@);
    s
}


/// The texts of a sequence of strings.
pub open spec fn string_texts(v: Seq<String>) -> Seq<Seq<char>> {
    v.map_values(|x: String| x@)
}

/// The pieces of `s` between the occurrences of `sep`, as splitting on a
/// char gives them: `k` separators always give `k + 1` pieces, empty ones included.
pub open spec fn split_on(s: Seq<char>, sep: char) -> Seq<Seq<char>>
    decreases s.len(),
{
    if s.len() == 0 {
        seq![seq![]]
    } else {
        let prev = split_on(s.drop_last(), sep);
        if s.last() == sep {
            prev.push(seq![])
        } else {
            prev.update(prev.len() - 1, prev.last().push(s.last()))
        }
    }
}

/// The pieces of `pieces` written one after the other with `sep` between them.
pub open spec fn join_with(pieces: Seq<Seq<char>>, sep: Seq<char>) -> Seq<char>
    decreases pieces.len(),
{
    if pieces.len() == 0 {
        seq![]
    } else if pieces.len() == 1 {
        pieces[0]
    } else {
        join_with(pieces.drop_last(), sep) + sep + pieces.last()
    }
}

/// Joining writes the first piece, then, for each following piece in turn,
/// the separator and that piece.
pub proof fn lemma_join_with_pieces(pieces: Seq<Seq<char>>, sep: Seq<char>)
    requires
        pieces.len() >= 1,
    ensures
        join_with(pieces, sep) == pieces[0] + pieces.drop_first().map_values(|p: Seq<char>| sep + p).flatten(),
    decreases pieces.len(),
{
    let rest = pieces.drop_first().map_values(|p: Seq<char>| sep + p);
    if pieces.len() == 1 {
        assert(rest =~= seq![]);
        assert(pieces[0] + rest.flatten() =~= pieces[0]);
    } else {
        let init = pieces.drop_last();
        lemma_join_with_pieces(init, sep);
        let rest0 = init.drop_first().map_values(|p: Seq<char>| sep + p);
        assert(rest =~= rest0.push(sep + pieces.last()));
        rest0.lemma_flatten_push(sep + pieces.last());
        assert(init[0] == pieces[0]);
        assert(join_with(pieces, sep) =~= pieces[0] + rest.flatten());
    }
}

/// Splitting gives at least one piece.
pub proof fn lemma_split_on_nonempty(s: Seq<char>, sep: char)
    ensures
        split_on(s, sep).len() >= 1,
    decreases s.len(),
{
    if s.len() > 0 {
        lemma_split_on_nonempty(s.drop_last(), sep);
    }
}

/// Joining the pieces of a split with the separator gives back the text,
/// and no piece holds the separator.
pub proof fn lemma_split_join(s: Seq<char>, sep: char)
    ensures
        join_with(split_on(s, sep), seq![sep]) == s,
        forall|i: int| 0 <= i < split_on(s, sep).len() ==> !(#[trigger] split_on(s, sep)[i]).contains(sep),
    decreases s.len(),
{
    if s.len() > 0 {
        let t = s.drop_last();
        let c = s.last();
        lemma_split_join(t, sep);
        lemma_split_on_nonempty(t, sep);
        let prev = split_on(t, sep);
        let cur = split_on(s, sep);
        if c == sep {
            assert(cur.drop_last() =~= prev);
            assert(s =~= t + seq![sep] + seq![]);
            assert forall|i: int| 0 <= i < cur.len() implies !(#[trigger] cur[i]).contains(sep) by {
                if i < prev.len() {
                    assert(cur[i] == prev[i]);
                }
            }
        } else {
            let n = prev.len() - 1;
            assert forall|i: int| 0 <= i < cur.len() implies !(#[trigger] cur[i]).contains(sep) by {
                if i == n {
                    assert forall|k: int| 0 <= k < cur[i].len() implies cur[i][k] != sep by {
                        if k < prev[n].len() {
                            assert(cur[i][k] == prev[n][k]);
                        }
                    }
                }
            }
            if prev.len() == 1 {
                assert(cur[0] =~= s);
            } else {
                assert(cur.drop_last() =~= prev.drop_last());
                assert(join_with(prev, seq![sep]) == join_with(prev.drop_last(), seq![sep]) + seq![sep] + prev.last());
                assert(cur.last() == prev.last().push(c));
                assert(t == join_with(prev.drop_last(), seq![sep]) + seq![sep] + prev.last());
                assert(s =~= t.push(c));
                assert(s =~= join_with(prev.drop_last(), seq![sep]) + seq![sep] + cur.last());
            }
        }
    }
}

/// Splits `s` at every `sep`.
pub fn split_char(s: &str, sep: char) -> (pieces: Vec<String>)
    ensures
        string_texts(pieces@) == split_on(s@, sep),
{
    str_char_len_fits(s);
    let mut pieces: Vec<String> = Vec::new();
    let mut cur = String::new();
    let mut i: usize = 0;
    for c in it: s.chars()
        invariant
            i == it.index@,
            it.seq() == s@,
            s@.len() <= usize::MAX,
            string_texts(pieces@).push(cur@) == split_on(s@.take(i as int), sep),
    {
        let ghost t = s@.take(i as int);
        assert(s@.take(i + 1).drop_last() =~= t);
        assert(s@.take(i + 1).last() == c);
        proof {
            lemma_split_on_nonempty(t, sep);
        }
        if c == sep {
            let mut done = String::new();
            std::mem::swap(&mut done, &mut cur);
            pieces.push(done);
            assert(string_texts(pieces@).push(cur@) =~= split_on(s@.take(i + 1), sep));
        } else {
            let ghost before = string_texts(pieces@).push(cur@);
            push_char(&mut cur, c);
            assert(string_texts(pieces@).push(cur@) =~= before.update(before.len() - 1, before.last().push(c)));
        }
        i = i + 1;
    }
    assert(s@.take(i as int) =~= s@);
    pieces.push(cur);
    pieces
}

/// Writes the strings of `pieces` one after the other with `sep` between them.
pub fn join_strs(pieces: &[&str], sep: &str) -> (s: String)
    ensures
        s@ == join_with(pieces@.map_values(|p: &str| p@), sep@),
{
    let ghost texts = pieces@.map_values(|p: &str| p@);
    let mut s = String::new();
    let n = pieces.len();
    let mut i: usize = 0;
    while i < n
        invariant
            n == pieces@.len(),
            i <= n,
            texts == pieces@.map_values(|p: &str| p@),
            s@ == join_with(texts.take(i as int), sep@),
        decreases n - i,
    {
        assert(texts.take(i + 1).drop_last() =~= texts.take(i as int));
        if i > 0 {
            s.append(sep);
        }
        s.append(pieces[i]);
        assert(s@ =~= join_with(texts.take(i + 1), sep@));
        i = i + 1;
    }
    assert(texts.take(n as int) =~= texts);
    s
}


/// A decimal digit.
pub open spec fn is_digit(c: char) -> bool {
    48 <= (c as int) <= 57
}

/// The value of a text of decimal digits.
pub open spec fn digits_value(s: Seq<char>) -> nat
    decreases s.len(),
{
    if s.len() == 0 {
        0
    } else {
        digits_value(s.drop_last()) * 10 + ((s.last() as int) - 48) as nat
    }
}

/// The digits of an unsigned number's text: the text without one leading `'+'`.
pub open spec fn unsigned_digits(s: Seq<char>) -> Seq<char> {
    if s.len() > 0 && s[0] == '+' {
        s.drop_first()
    } else {
        s
    }
}

/// The value written in `s`, as the standard parsing of an unsigned integer
/// reads it: an optional `'+'` and at least one decimal digit, nothing else.
pub open spec fn unsigned_value(s: Seq<char>) -> Option<nat> {
    let d = unsigned_digits(s);
    if d.len() > 0 && forall|i: int| 0 <= i < d.len() ==> is_digit(d[i]) {
        Some(digits_value(d))
    } else {
        None
    }
}

/// The smaller of two numbers.
pub open spec fn min_nat(a: nat, b: nat) -> nat {
    if a <= b {
        a
    } else {
        b
    }
}

proof fn lemma_capped_step(v: nat, cap: nat, d: nat)
    ensures
        min_nat(v * 10 + d, cap) == min_nat(min_nat(v, cap) * 10 + d, cap),
{
    if v > cap {
        assert(v * 10 + d >= cap) by (nonlinear_arith)
            requires
                v > cap,
        ;
        assert(cap * 10 + d >= cap) by (nonlinear_arith);
    }
}

/// The value of a decimal digit.
pub fn digit_value(c: char) -> (r: Option<u8>)
    ensures
        r matches Some(d) ==> is_digit(c) && d == (c as int) - 48,
        r is None ==> !is_digit(c),
{
    match c {
        '0' => Some(0),
        '1' => Some(1),
        '2' => Some(2),
        '3' => Some(3),
        '4' => Some(4),
        '5' => Some(5),
        '6' => Some(6),
        '7' => Some(7),
        '8' => Some(8),
        '9' => Some(9),
        _ => None,
    }
}

/// Reads an unsigned number no greater than `max` from `s`; `None` when `s`
/// is no such number or the number exceeds `max`.
pub fn parse_unsigned(s: &str, max: u64) -> (r: Option<u64>)
    ensures
        r matches Some(v) ==> unsigned_value(s@) == Some(v as nat) && v <= max,
        r is None ==> unsigned_value(s@) is None || unsigned_value(s@).unwrap() > max,
{
    let len = s.unicode_len();
    if len == 0 {
        return None;
    }
    let body = if s.get_char(0) == '+' {
        s.substring_char(1, len)
    } else {
        s
    };
    assert(body@ == unsigned_digits(s@));
    if body.unicode_len() == 0 {
        return None;
    }
    let cap: u128 = max as u128 + 1;
    let mut acc: u128 = 0;
    str_char_len_fits(body);
    let mut i: usize = 0;
    for c in it: body.chars()
        invariant
            i == it.index@,
            it.seq() == body@,
            body@.len() <= usize::MAX,
            body@ == unsigned_digits(s@),
            cap == max + 1,
            acc == min_nat(digits_value(body@.take(i as int)), cap as nat),
            forall|k: int| 0 <= k < i ==> is_digit(body@[k]),
    {
        assert(body@.take(i + 1).last() == c);
        assert(body@[i as int] == c);
        let d = match digit_value(c) {
            Some(d) => d as u128,
            None => {
                assert(!is_digit(body@[i as int]));
                assert(unsigned_value(s@) is None);
                return None;
            },
        };
        proof {
            assert(body@.take(i + 1).drop_last() =~= body@.take(i as int));
            lemma_capped_step(digits_value(body@.take(i as int)), cap as nat, d as nat);
        }
        acc = acc * 10 + d;
        if acc > cap {
            acc = cap;
        }
        i = i + 1;
    }
    assert(body@.take(i as int) =~= body@);
    if acc <= max as u128 {
        Some(acc as u64)
    } else {
        None
    }
}


/// A line without the `'\r'` that may end it.
pub open spec fn strip_cr(line: Seq<char>) -> Seq<char> {
    if line.len() > 0 && line.last() == '\r' {
        line.drop_last()
    } else {
        line
    }
}

/// The lines of `text` as `str::lines` reads them: the text is cut at every
/// `'\n'`, a `'\r'` right before a `'\n'` is dropped, and an empty last
/// piece (after a final `'\n'`, or of an empty text) is no line.
pub open spec fn lines_spec(text: Seq<char>) -> Seq<Seq<char>> {
    let pieces = split_on(text, '\n');
    let ended = Seq::new((pieces.len() - 1) as nat, |i: int| strip_cr(pieces[i]));
    if pieces.last().len() == 0 {
        ended
    } else {
        ended.push(pieces.last())
    }
}

/// The line `s` without a final `'\r'`.
fn strip_cr_str(s: &str) -> (r: String)
    ensures
        r@ == strip_cr(s@),
{
    let len = s.unicode_len();
    if len > 0 && s.get_char(len - 1) == '\r' {
        let r = s.substring_char(0, len - 1).to_owned();
        assert(r@ =~= strip_cr(s@));
        r
    } else {
        s.to_owned()
    }
}

/// The lines of `text`.
pub fn lines_of(text: &str) -> (lines: Vec<String>)
    ensures
        string_texts(lines@) == lines_spec(text@),
{
    let pieces = split_char(text, '\n');
    proof {
        lemma_split_on_nonempty(text@, '\n');
    }
    let ghost p = string_texts(pieces@);
    let n = pieces.len();
    let mut lines: Vec<String> = Vec::new();
    let mut i: usize = 0;
    while i + 1 < n
        invariant
            p == string_texts(pieces@),
            p == split_on(text@, '\n'),
            n == pieces@.len(),
            n >= 1,
            i + 1 <= n,
            lines@.len() == i,
            forall|j: int| 0 <= j < i ==> (#[trigger] lines@[j])@ == strip_cr(p[j]),
        decreases n - i,
    {
        let line = strip_cr_str(pieces[i].as_str());
        let ghost prev = lines@;
        lines.push(line);
        assert forall|j: int| 0 <= j < i + 1 implies (#[trigger] lines@[j])@ == strip_cr(p[j]) by {
            if j < i {
                assert(lines@[j] == prev[j]);
            }
        }
        i = i + 1;
    }
    let last = pieces[n - 1].as_str();
    let ghost ended = Seq::new((p.len() - 1) as nat, |k: int| strip_cr(p[k]));
    assert(string_texts(lines@) =~= ended);
    if last.unicode_len() > 0 {
        lines.push(last.to_owned());
        assert(string_texts(lines@) =~= ended.push(p.last()));
    }
    lines
}


/// Reading back the decimal text of a number gives the number.
pub proof fn lemma_decimal_roundtrip(n: nat)
    ensures
        unsigned_value(decimal(n)) == Some(n),
    decreases n,
{
    lemma_decimal_digits(n);
}

proof fn lemma_decimal_digits(n: nat)
    ensures
        decimal(n).len() > 0,
        decimal(n)[0] != '+',
        forall|i: int| 0 <= i < decimal(n).len() ==> is_digit(#[trigger] decimal(n)[i]),
        digits_value(decimal(n)) == n,
    decreases n,
{
    let d = digit_chars();
    assert(d[0] == '0' && d[1] == '1' && d[2] == '2' && d[3] == '3' && d[4] == '4');
    assert(d[5] == '5' && d[6] == '6' && d[7] == '7' && d[8] == '8' && d[9] == '9');
    assert(forall|k: int| 0 <= k < 10 ==> is_digit(#[trigger] d[k]) && (d[k] as int) - 48 == k);
    if n < 10 {
        assert(digits_value(decimal(n)) == digits_value(decimal(n).drop_last()) * 10 + ((decimal(n).last() as int) - 48) as nat);
        assert(decimal(n).drop_last() =~= seq![]);
    } else {
        lemma_decimal_digits(n / 10);
        let s = decimal(n);
        assert(s.drop_last() == decimal(n / 10));
        assert(s[0] == decimal(n / 10)[0]);
        assert forall|i: int| 0 <= i < s.len() implies is_digit(#[trigger] s[i]) by {
            if i < s.len() - 1 {
                assert(s[i] == decimal(n / 10)[i]);
            }
        }
    }
}

} // verus!
