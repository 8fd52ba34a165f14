//! Character-level text handling: decimal numbers, splitting, lines and
//! whitespace, as the manifest formats and the object keys need them.
use vstd::prelude::*;
use vstd::string::*;

verus! {

/// Appends `c` to `s` with `String::push`. Trusted: the contract claims that
/// the string afterwards holds its old characters followed by `c`.
#[verifier::external_body]
pub(crate) fn push_char(s: &mut String, c: char)
    ensures
        final(s)@ == old(s)@.push(c),
{
    s.push(c);
}

/// The characters of `s`, in order.
pub fn chars_of(s: &str) -> (v: Vec<char>)
    ensures
        v@ == s@,
{
    let mut v: Vec<char> = Vec::new();
    for c in it: s.chars()
        invariant
            v@ == it.seq().take(it.index() as int),
            it.seq() == s@,
    {
        v.push(c);
    }
    v
}

/// The string made of the characters `cs`.
pub fn string_of(cs: &[char]) -> (s: String)
    ensures
        s@ == cs@,
{
    let mut s = String::new();
    let mut i: usize = 0;
    while i < cs.len()
        invariant
            0 <= i <= cs@.len(),
            s@ == cs@.take(i as int),
        decreases cs@.len() - i,
    {
        push_char(&mut s, cs[i]);
        assert(cs@.take(i + 1) =~= cs@.take(i as int).push(cs@[i as int]));
        i = i + 1;
    }
    assert(cs@.take(cs@.len() as int) =~= cs@);
    s
}

/// The decimal digit character for `d`, for `d` in `0..10`.
pub open spec fn digit_char(d: int) -> char {
    ((d + 48) as u32) as char
}

/// `c` is one of `0` to `9`.
pub open spec fn is_digit(c: char) -> bool {
    '0' <= c && c <= '9'
}

/// The value of the digit character `c`.
pub open spec fn digit_value(c: char) -> int {
    c as int - 48
}

/// The decimal form of `n`, without leading zeros (`0` for zero).
pub open spec fn decimal(n: nat) -> Seq<char>
    decreases n,
{
    if n < 10 {
        seq![digit_char(n as int)]
    } else {
        decimal(n / 10).push(digit_char((n % 10) as int))
    }
}

/// The decimal form of `n`, left-padded with zeros to at least `width`
/// characters.
pub open spec fn zero_padded(n: nat, width: nat) -> Seq<char> {
    let d = decimal(n);
    if d.len() >= width {
        d
    } else {
        Seq::new((width - d.len()) as nat, |i: int| '0') + d
    }
}

fn digit(d: u64) -> (c: char)
    requires
        d < 10,
    ensures
        c == digit_char(d as int),
        is_digit(c),
        digit_value(c) == d,
{
    match d {
        0 => '0',
        1 => '1',
        2 => '2',
        3 => '3',
        4 => '4',
        5 => '5',
        6 => '6',
        7 => '7',
        8 => '8',
        _ => '9',
    }
}

/// Appends the decimal form of `n`.
pub fn push_decimal(s: &mut String, n: u64)
    ensures
        final(s)@ == old(s)@ + decimal(n as nat),
    decreases n,
{
    if n >= 10 {
        push_decimal(s, n / 10);
    }
    push_char(s, digit(n % 10));
    assert(final(s)@ =~= old(s)@ + decimal(n as nat));
}

/// The number of characters in the decimal form of `n`.
pub fn decimal_len(n: u64) -> (k: usize)
    ensures
        k == decimal(n as nat).len(),
    decreases n,
{
    if n >= 10 {
        let k = decimal_len(n / 10);
        assert(k <= 20) by {
            lemma_decimal_len_bound(n as nat / 10);
        }
        k + 1
    } else {
        1
    }
}

proof fn lemma_decimal_len_bound(n: nat)
    requires
        n <= u64::MAX,
    ensures
        decimal(n).len() <= 20,
{
    lemma_decimal_len_below(n, 20);
}

/// The power `10^k`.
pub open spec fn pow10(k: nat) -> nat
    decreases k,
{
    if k == 0 {
        1
    } else {
        10 * pow10((k - 1) as nat)
    }
}

proof fn lemma_decimal_len_below(n: nat, k: nat)
    requires
        1 <= k,
        n < pow10(k) || (k == 20 && n <= u64::MAX),
    ensures
        decimal(n).len() <= k,
    decreases n,
{
    if k == 20 && n <= u64::MAX {
        assert(pow10(20) == 100000000000000000000nat) by {
            reveal_with_fuel(pow10, 21);
        }
    }
    assert(n < pow10(k));
    if n >= 10 {
        assert(k >= 2) by {
            if k == 1 {
                assert(pow10(1) == 10) by {
                    reveal_with_fuel(pow10, 2);
                }
            }
        }
        let k1 = (k - 1) as nat;
        assert(pow10(k) == 10 * pow10(k1));
        assert(n / 10 < pow10(k1)) by (nonlinear_arith)
            requires
                n < 10 * pow10(k1),
        ;
        lemma_decimal_len_below(n / 10, k1);
    }
}

/// Appends the decimal form of `n`, left-padded with zeros to `width`
/// characters (as `{:0width}` formats it).
pub fn push_zero_padded(s: &mut String, n: u64, width: usize)
    ensures
        final(s)@ == old(s)@ + zero_padded(n as nat, width as nat),
{
    let k = decimal_len(n);
    let ghost start = s@;
    if k < width {
        let mut i: usize = 0;
        while i < width - k
            invariant
                0 <= i <= width - k,
                s@ == start + Seq::new(i as nat, |j: int| '0'),
            decreases width - k - i,
        {
            push_char(s, '0');
            assert(s@ =~= start + Seq::new((i + 1) as nat, |j: int| '0'));
            i = i + 1;
        }
    }
    push_decimal(s, n);
    assert(s@ =~= start + zero_padded(n as nat, width as nat));
}

/// `c` is white space as Unicode defines it (what `char::is_whitespace` tests).
pub open spec fn is_whitespace(c: char) -> bool {
    let u = c as u32;
    ||| 0x9 <= u <= 0xd
    ||| u == 0x20
    ||| u == 0x85
    ||| u == 0xa0
    ||| u == 0x1680
    ||| 0x2000 <= u <= 0x200a
    ||| u == 0x2028
    ||| u == 0x2029
    ||| u == 0x202f
    ||| u == 0x205f
    ||| u == 0x3000
}

/// Tests whether `c` is white space.
pub fn is_whitespace_char(c: char) -> (b: bool)
    ensures
        b == is_whitespace(c),
{
    let u = c as u32;
    (0x9 <= u && u <= 0xd) || u == 0x20 || u == 0x85 || u == 0xa0 || u == 0x1680 || (0x2000 <= u
        && u <= 0x200a) || u == 0x2028 || u == 0x2029 || u == 0x202f || u == 0x205f || u == 0x3000
}

/// `s` without its trailing white space.
pub open spec fn trim_end(s: Seq<char>) -> Seq<char>
    decreases s.len(),
{
    if s.len() > 0 && is_whitespace(s.last()) {
        trim_end(s.drop_last())
    } else {
        s
    }
}

/// `s` without its leading white space.
pub open spec fn trim_start(s: Seq<char>) -> Seq<char>
    decreases s.len(),
{
    if s.len() > 0 && is_whitespace(s[0]) {
        trim_start(s.drop_first())
    } else {
        s
    }
}

/// `s` without white space at either end.
pub open spec fn trim(s: Seq<char>) -> Seq<char> {
    trim_start(trim_end(s))
}

/// `s` without its trailing white space.
pub fn trim_end_chars(s: &[char]) -> (t: Vec<char>)
    ensures
        t@ == trim_end(s@),
{
    let mut e: usize = s.len();
    assert(s@.take(e as int) =~= s@);
    while e > 0 && is_whitespace_char(s[e - 1])
        invariant
            0 <= e <= s@.len(),
            trim_end(s@) == trim_end(s@.take(e as int)),
        decreases e,
    {
        assert(s@.take(e as int).drop_last() =~= s@.take(e - 1));
        e = e - 1;
    }
    let t = slice_prefix(s, e);
    t
}

/// `s` without white space at either end.
pub fn trim_chars(s: &[char]) -> (t: Vec<char>)
    ensures
        t@ == trim(s@),
{
    let end = trim_end_chars(s);
    let mut b: usize = 0;
    assert(end@.skip(0) =~= end@);
    while b < end.len() && is_whitespace_char(end[b])
        invariant
            0 <= b <= end@.len(),
            trim(s@) == trim_start(end@.skip(b as int)),
        decreases end@.len() - b,
    {
        assert(end@.skip(b as int).drop_first() =~= end@.skip(b + 1));
        b = b + 1;
    }
    let mut t: Vec<char> = Vec::new();
    let mut i: usize = b;
    while i < end.len()
        invariant
            b <= i <= end@.len(),
            t@ == end@.subrange(b as int, i as int),
        decreases end@.len() - i,
    {
        t.push(end[i]);
        assert(t@ =~= end@.subrange(b as int, i + 1));
        i = i + 1;
    }
    assert(t@ =~= end@.skip(b as int));
    t
}

/// The first `n` characters of `s`.
fn slice_prefix(s: &[char], n: usize) -> (t: Vec<char>)
    requires
        n <= s@.len(),
    ensures
        t@ == s@.take(n as int),
{
    let mut t: Vec<char> = Vec::new();
    let mut i: usize = 0;
    while i < n
        invariant
            0 <= i <= n <= s@.len(),
            t@ == s@.take(i as int),
        decreases n - i,
    {
        t.push(s[i]);
        assert(t@ =~= s@.take(i + 1));
        i = i + 1;
    }
    t
}

/// The pieces of `s` between the occurrences of `sep` (as `str::split`
/// gives them): one more piece than there are separators.
pub open spec fn split_on(s: Seq<char>, sep: char) -> Seq<Seq<char>>
    decreases s.len(),
{
    if s.len() == 0 {
        seq![Seq::<char>::empty()]
    } else {
        let before = split_on(s.drop_last(), sep);
        if s.last() == sep {
            before.push(Seq::<char>::empty())
        } else {
            before.update(before.len() - 1, before.last().push(s.last()))
        }
    }
}

/// The character sequences held by `v`.
pub open spec fn char_seqs(v: Seq<Vec<char>>) -> Seq<Seq<char>> {
    v.map_values(|x: Vec<char>| x@)
}

proof fn lemma_split_nonempty(s: Seq<char>, sep: char)
    ensures
        split_on(s, sep).len() >= 1,
    decreases s.len(),
{
    if s.len() > 0 {
        lemma_split_nonempty(s.drop_last(), sep);
    }
}

/// The pieces of `s` between the occurrences of `sep`.
pub fn split_chars(s: &[char], sep: char) -> (pieces: Vec<Vec<char>>)
    ensures
        char_seqs(pieces@) == split_on(s@, sep),
{
    let mut done: Vec<Vec<char>> = Vec::new();
    let mut current: Vec<char> = Vec::new();
    let mut i: usize = 0;
    assert(s@.take(0) =~= Seq::<char>::empty());
    assert(char_seqs(done@).push(current@) =~= split_on(s@.take(0), sep));
    while i < s.len()
        invariant
            0 <= i <= s@.len(),
            char_seqs(done@).push(current@) == split_on(s@.take(i as int), sep),
        decreases s@.len() - i,
    {
        let c = s[i];
        let ghost before = split_on(s@.take(i as int), sep);
        assert(s@.take(i + 1).drop_last() =~= s@.take(i as int));
        assert(s@.take(i + 1).last() == c);
        if c == sep {
            let finished = current;
            done.push(finished);
            current = Vec::new();
            assert(char_seqs(done@).push(current@) =~= before.push(Seq::<char>::empty()));
        } else {
            let ghost old_done = char_seqs(done@);
            current.push(c);
            assert(char_seqs(done@) == old_done);
            assert(char_seqs(done@).push(current@) =~= before.update(
                before.len() - 1,
                before.last().push(c),
            ));
        }
        i = i + 1;
    }
    done.push(current);
    assert(s@.take(s@.len() as int) =~= s@);
    assert(char_seqs(done@) =~= split_on(s@, sep));
    done
}

/// `l` without one trailing carriage return.
pub open spec fn strip_cr(l: Seq<char>) -> Seq<char> {
    if l.len() > 0 && l.last() == '\r' {
        l.drop_last()
    } else {
        l
    }
}

/// The lines of `s` (as `str::lines` gives them): the pieces between line
/// feeds, each line that a line feed ends without one trailing carriage
/// return, and no empty last line after a final line feed.
pub open spec fn lines(s: Seq<char>) -> Seq<Seq<char>> {
    let parts = split_on(s, '\n');
    let n = parts.len() as int;
    let body = Seq::new((n - 1) as nat, |i: int| strip_cr(parts[i]));
    if parts[n - 1].len() == 0 {
        body
    } else {
        body.push(parts[n - 1])
    }
}

/// The lines of `s`.
#[verifier::spinoff_prover]
pub fn lines_of(s: &[char]) -> (ls: Vec<Vec<char>>)
    ensures
        char_seqs(ls@) == lines(s@),
{
    let parts = split_chars(s, '\n');
    proof {
        lemma_split_nonempty(s@, '\n');
    }
    let ghost ps = split_on(s@, '\n');
    let n = parts.len();
    let mut out: Vec<Vec<char>> = Vec::new();
    let mut i: usize = 0;
    while i + 1 < n
        invariant
            n == parts@.len(),
            n >= 1,
            ps == char_seqs(parts@),
            0 <= i <= n - 1,
            char_seqs(out@) == Seq::new(i as nat, |j: int| strip_cr(ps[j])),
        decreases n - i,
    {
        let part = &parts[i];
        let mut line = slice_prefix(part.as_slice(), part.len());
        assert(line@ == ps[i as int]);
        let k = line.len();
        if k > 0 && line[k - 1] == '\r' {
            line.pop();
        }
        assert(line@ == strip_cr(ps[i as int]));
        let ghost old_out = char_seqs(out@);
        out.push(line);
        assert(char_seqs(out@) =~= old_out.push(strip_cr(ps[i as int])));
        assert(char_seqs(out@) =~= Seq::new((i + 1) as nat, |j: int| strip_cr(ps[j])));
        i = i + 1;
    }
    let last = &parts[n - 1];
    if last.len() > 0 {
        let line = slice_prefix(last.as_slice(), last.len());
        assert(line@ =~= ps[n - 1]);
        out.push(line);
    }
    assert(char_seqs(out@) =~= lines(s@));
    out
}

/// The value of the decimal digits `s`.
pub open spec fn digits_value(s: Seq<char>) -> nat
    decreases s.len(),
{
    if s.len() == 0 {
        0
    } else {
        digits_value(s.drop_last()) * 10 + digit_value(s.last()) as nat
    }
}

/// Every character of `s` is a decimal digit.
pub open spec fn all_digits(s: Seq<char>) -> bool {
    forall|i: int| 0 <= i < s.len() ==> is_digit(#[trigger] s[i])
}

/// The digits of an unsigned number: `s` without one leading `+`.
pub open spec fn unsigned_digits(s: Seq<char>) -> Seq<char> {
    if s.len() > 0 && s[0] == '+' {
        s.drop_first()
    } else {
        s
    }
}

/// What `str::parse` gives for an unsigned integer type whose largest value
/// is `max`: one optional `+`, then at least one decimal digit and nothing
/// else, of value at most `max`.
pub open spec fn parse_unsigned(s: Seq<char>, max: nat) -> Option<nat> {
    let ds = unsigned_digits(s);
    if ds.len() > 0 && all_digits(ds) && digits_value(ds) <= max {
        Some(digits_value(ds))
    } else {
        None
    }
}

proof fn lemma_digits_value_prefix(s: Seq<char>, k: int)
    requires
        0 <= k <= s.len(),
        all_digits(s),
    ensures
        digits_value(s.take(k)) <= digits_value(s),
    decreases s.len(),
{
    if k < s.len() {
        let p = s.drop_last();
        assert(all_digits(p)) by {
            assert forall|i: int| 0 <= i < p.len() implies is_digit(#[trigger] p[i]) by {
                assert(p[i] == s[i]);
            }
        }
        assert(p.take(k) =~= s.take(k));
        lemma_digits_value_prefix(p, k);
        assert(is_digit(s[s.len() - 1]));
    } else {
        assert(s.take(k) =~= s);
    }
}

/// Parses `s` as an unsigned number no larger than `max`.
#[verifier::spinoff_prover]
pub fn parse_unsigned_chars(s: &[char], max: u64) -> (r: Option<u64>)
    ensures
        match parse_unsigned(s@, max as nat) {
            Some(v) => r == Some(v as u64),
            None => r is None,
        },
{
    let ghost ds = unsigned_digits(s@);
    let start: usize = if s.len() > 0 && s[0] == '+' {
        1
    } else {
        0
    };
    assert(ds =~= s@.skip(start as int));
    if start >= s.len() {
        return None;
    }
    let mut acc: u64 = 0;
    let mut i: usize = start;
    while i < s.len()
        invariant
            start <= i <= s@.len(),
            ds == s@.skip(start as int),
            ds == unsigned_digits(s@),
            acc <= max,
            acc == digits_value(ds.take(i - start)),
            all_digits(ds.take(i - start)),
        decreases s@.len() - i,
    {
        let c = s[i];
        let ghost j = i - start;
        assert(ds[j] == c);
        if !('0' <= c && c <= '9') {
            assert(!all_digits(ds));
            return None;
        }
        let d = (c as u32 - 48) as u64;
        let next: u128 = (acc as u128) * 10 + (d as u128);
        assert(ds.take(j + 1).drop_last() =~= ds.take(j));
        assert(ds.take(j + 1).last() == c);
        assert(digits_value(ds.take(j + 1)) == next);
        assert(all_digits(ds.take(j + 1))) by {
            assert forall|k: int| 0 <= k < j + 1 implies is_digit(#[trigger] ds.take(j + 1)[k]) by {
                if k < j {
                    assert(ds.take(j + 1)[k] == ds.take(j)[k]);
                }
            }
        }
        if next > max as u128 {
            proof {
                if all_digits(ds) {
                    lemma_digits_value_prefix(ds, j + 1);
                }
            }
            return None;
        }
        acc = next as u64;
        i = i + 1;
    }
    assert(ds.take(s@.len() - start) =~= ds);
    Some(acc)
}

/// Reading back the decimal form of `n` gives `n`, for any `n` no larger
/// than `max`.
pub proof fn lemma_parse_decimal(n: nat, max: nat)
    requires
        n <= max,
    ensures
        parse_unsigned(decimal(n), max) == Some(n),
{
    lemma_decimal_digits(n);
    assert(unsigned_digits(decimal(n)) == decimal(n));
}

/// The decimal form of `n` is a non-empty run of digits whose value is `n`.
pub proof fn lemma_decimal_digits(n: nat)
    ensures
        decimal(n).len() > 0,
        all_digits(decimal(n)),
        digits_value(decimal(n)) == n,
    decreases n,
{
    if n < 10 {
        let d = decimal(n);
        assert(d.drop_last() =~= Seq::<char>::empty());
        assert(is_digit(d[0]));
        assert(digits_value(Seq::<char>::empty()) == 0);
        assert(digit_value(d.last()) == n);
        assert(digits_value(d) == digits_value(d.drop_last()) * 10 + digit_value(d.last()) as nat);
    } else {
        lemma_decimal_digits(n / 10);
        let d = decimal(n);
        let p = decimal(n / 10);
        assert(d.drop_last() =~= p);
        assert(is_digit(d.last()));
        assert(all_digits(d)) by {
            assert forall|i: int| 0 <= i < d.len() implies is_digit(#[trigger] d[i]) by {
                if i < p.len() {
                    assert(d[i] == p[i]);
                }
            }
        }
        assert(digit_value(d.last()) == n % 10);
        assert(digits_value(d) == digits_value(p) * 10 + (n % 10));
        assert((n / 10) * 10 + n % 10 == n) by (nonlinear_arith);
    }
}

/// Splitting after a piece with no separator in it extends the last piece.
pub proof fn lemma_split_append_plain(s: Seq<char>, t: Seq<char>, sep: char)
    requires
        !t.contains(sep),
    ensures
        split_on(s + t, sep) == split_on(s, sep).update(
            split_on(s, sep).len() - 1,
            split_on(s, sep).last() + t,
        ),
    decreases t.len(),
{
    lemma_split_nonempty(s, sep);
    let base = split_on(s, sep);
    if t.len() == 0 {
        assert(s + t =~= s);
        assert(base.last() + t =~= base.last());
        assert(base.update(base.len() - 1, base.last() + t) =~= base);
    } else {
        let t0 = t.drop_last();
        assert(!t0.contains(sep)) by {
            if t0.contains(sep) {
                let j = choose|j: int| 0 <= j < t0.len() && t0[j] == sep;
                assert(t[j] == sep);
            }
        }
        assert(t.last() != sep) by {
            assert(t[t.len() - 1] == t.last());
        }
        lemma_split_append_plain(s, t0, sep);
        assert((s + t).drop_last() =~= s + t0);
        assert((s + t).last() == t.last());
        let mid = split_on(s + t0, sep);
        assert(mid.len() == base.len());
        assert(split_on(s + t, sep) =~= base.update(base.len() - 1, base.last() + t)) by {
            assert(mid.last() == base.last() + t0);
            assert(mid.last().push(t.last()) =~= base.last() + t);
        }
    }
}

/// Splitting after a separator starts a new, empty piece.
pub proof fn lemma_split_push_sep(s: Seq<char>, sep: char)
    ensures
        split_on(s.push(sep), sep) == split_on(s, sep).push(Seq::<char>::empty()),
{
    assert(s.push(sep).drop_last() =~= s);
}

/// The pieces `fields` joined with `sep` between them.
pub open spec fn join_on(fields: Seq<Seq<char>>, sep: char) -> Seq<char>
    decreases fields.len(),
{
    if fields.len() <= 1 {
        if fields.len() == 1 {
            fields[0]
        } else {
            Seq::empty()
        }
    } else {
        join_on(fields.drop_last(), sep).push(sep) + fields.last()
    }
}

/// Splitting what was joined gives back the pieces, when none of them
/// holds the separator.
#[verifier::spinoff_prover]
pub proof fn lemma_split_join(fields: Seq<Seq<char>>, sep: char)
    requires
        fields.len() >= 1,
        forall|i: int| 0 <= i < fields.len() ==> !(#[trigger] fields[i]).contains(sep),
    ensures
        split_on(join_on(fields, sep), sep) == fields,
    decreases fields.len(),
{
    if fields.len() == 1 {
        lemma_split_append_plain(Seq::<char>::empty(), fields[0], sep);
        assert(Seq::<char>::empty() + fields[0] =~= fields[0]);
        assert(split_on(Seq::<char>::empty(), sep) =~= seq![Seq::<char>::empty()]);
        assert(split_on(fields[0], sep) =~= fields);
    } else {
        let init = fields.drop_last();
        assert forall|i: int| 0 <= i < init.len() implies !(#[trigger] init[i]).contains(sep) by {
            assert(init[i] == fields[i]);
        }
        lemma_split_join(init, sep);
        let j = join_on(init, sep);
        lemma_split_push_sep(j, sep);
        lemma_split_append_plain(j.push(sep), fields.last(), sep);
        assert(!fields[fields.len() - 1].contains(sep));
        let pieces = init.push(Seq::<char>::empty());
        assert(pieces.last() + fields.last() =~= fields.last());
        assert(pieces.update(pieces.len() - 1, fields.last()) =~= fields);
    }
}

/// Trailing white space goes, and nothing before it when the text before
/// ends in something else.
pub proof fn lemma_trim_end_newline(s: Seq<char>)
    requires
        s.len() > 0,
        !is_whitespace(s.last()),
    ensures
        trim_end(s + "\n"@) == s,
{
    reveal_strlit("\n");
    let t = s + "\n"@;
    assert(t.last() == '\n');
    assert(is_whitespace('\n'));
    assert(t.drop_last() =~= s);
    assert(trim_end(s) == s);
    assert(trim_end(t) == trim_end(t.drop_last()));
}

proof fn lemma_zeros_value(z: Seq<char>)
    requires
        forall|i: int| 0 <= i < z.len() ==> #[trigger] z[i] == '0',
    ensures
        digits_value(z) == 0,
        all_digits(z),
    decreases z.len(),
{
    if z.len() > 0 {
        let p = z.drop_last();
        assert forall|i: int| 0 <= i < p.len() implies #[trigger] p[i] == '0' by {
            assert(p[i] == z[i]);
        }
        lemma_zeros_value(p);
        assert(z[z.len() - 1] == '0');
    }
}

proof fn lemma_leading_zeros_value(z: Seq<char>, d: Seq<char>)
    requires
        forall|i: int| 0 <= i < z.len() ==> #[trigger] z[i] == '0',
    ensures
        digits_value(z + d) == digits_value(d),
    decreases d.len(),
{
    if d.len() == 0 {
        assert(z + d =~= z);
        lemma_zeros_value(z);
    } else {
        lemma_leading_zeros_value(z, d.drop_last());
        assert((z + d).drop_last() =~= z + d.drop_last());
        assert((z + d).last() == d.last());
    }
}

/// Reading back the zero-padded form of `n` gives `n`, for any `n` no larger
/// than `max`.
pub proof fn lemma_parse_zero_padded(n: nat, width: nat, max: nat)
    requires
        n <= max,
    ensures
        parse_unsigned(zero_padded(n, width), max) == Some(n),
{
    lemma_decimal_digits(n);
    let d = decimal(n);
    if d.len() < width {
        let z = Seq::new((width - d.len()) as nat, |i: int| '0');
        lemma_leading_zeros_value(z, d);
        lemma_zeros_value(z);
        let p = z + d;
        assert(all_digits(p)) by {
            assert forall|i: int| 0 <= i < p.len() implies is_digit(#[trigger] p[i]) by {
                if i < z.len() {
                    assert(p[i] == z[i]);
                } else {
                    assert(p[i] == d[i - z.len()]);
                }
            }
        }
        assert(p[0] != '+') by {
            assert(is_digit(p[0]));
        }
        assert(unsigned_digits(p) == p);
    } else {
        assert(unsigned_digits(d) == d);
    }
}

/// The zero-padded form of a u64 in 20 places is exactly 20 characters long.
pub proof fn lemma_zero_padded_u64_len(n: nat)
    requires
        n <= u64::MAX,
    ensures
        zero_padded(n, 20).len() == 20,
{
    lemma_decimal_len_bound(n);
}

/// Joining pieces that avoid `c` with a separator other than `c` avoids `c`.
pub proof fn lemma_join_avoids(fields: Seq<Seq<char>>, sep: char, c: char)
    requires
        sep != c,
        forall|i: int| 0 <= i < fields.len() ==> !(#[trigger] fields[i]).contains(c),
    ensures
        !join_on(fields, sep).contains(c),
    decreases fields.len(),
{
    if fields.len() == 1 {
        assert(!fields[0].contains(c));
    } else if fields.len() > 1 {
        let init = fields.drop_last();
        assert forall|i: int| 0 <= i < init.len() implies !(#[trigger] init[i]).contains(c) by {
            assert(init[i] == fields[i]);
        }
        lemma_join_avoids(init, sep, c);
        let a = join_on(init, sep).push(sep);
        let b = fields.last();
        assert(!b.contains(c)) by {
            assert(b == fields[fields.len() - 1]);
        }
        if (a + b).contains(c) {
            let j = choose|j: int| 0 <= j < (a + b).len() && (a + b)[j] == c;
            if j < a.len() - 1 {
                assert(join_on(init, sep)[j] == c);
            } else if j == a.len() - 1 {
                assert(a[j] == sep);
            } else {
                assert(b[j - a.len()] == c);
            }
        }
    }
}

/// A sequence that ends in something other than white space keeps a
/// character when trimmed.
pub proof fn lemma_trim_keeps_nonblank(s: Seq<char>)
    requires
        s.len() > 0,
        !is_whitespace(s.last()),
    ensures
        trim(s) == trim_start(s),
        trim(s).len() > 0,
    decreases s.len(),
{
    assert(trim_end(s) == s);
    if is_whitespace(s[0]) {
        if s.len() == 1 {
            assert(s[0] == s.last());
        } else {
            let t = s.drop_first();
            assert(t.last() == s.last());
            lemma_trim_keeps_nonblank(t);
            assert(trim(t) == trim_start(t));
        }
    }
}

} // verus!
