//! Numbers and addresses as text.
use vstd::prelude::*;
use vstd::utf8::{
    decode_first_scalar, decode_utf8, encode_utf8, encode_utf8_decode_utf8, encode_utf8_valid_utf8,
    length_of_first_scalar, pop_first_scalar, valid_first_scalar, valid_utf8, valid_utf8_concat,
};

verus! {

/// `String::push` appends one character.
pub assume_specification[ String::push ](s: &mut String, ch: char)
    ensures
        final(s)@ == old(s)@.push(ch),
;

/// The digit for `d`, one of `0..10`.
pub open spec fn digit(d: nat) -> char {
    (('0' as u32) + d) as char
}

/// `n` in decimal, without leading zeros.
pub open spec fn decimal(n: nat) -> Seq<char>
    decreases n,
{
    if n < 10 {
        seq![digit(n)]
    } else {
        decimal(n / 10).push(digit(n % 10))
    }
}

fn digit_char(d: u64) -> (r: char)
    requires
        d < 10,
    ensures
        r == digit(d as nat),
{
    (0x30 + d as u8) as char
}

/// Append `n` in decimal.
pub(crate) fn push_decimal(s: &mut String, n: u64)
    ensures
        final(s)@ == old(s)@ + decimal(n as nat),
    decreases n,
{
    if n >= 10 {
        push_decimal(s, n / 10);
    }
    s.push(digit_char(n % 10));
    assert(s@ =~= old(s)@ + decimal(n as nat));
}

/// Append `n` in decimal.
pub(crate) fn push_usize(s: &mut String, n: usize)
    ensures
        final(s)@ == old(s)@ + decimal(n as nat),
{
    push_decimal(s, n as u64);
}

/// Append a literal.
pub(crate) fn push_text(s: &mut String, t: &str)
    ensures
        final(s)@ == old(s)@ + t@,
{
    s.append(t);
}

/// An IPv4 address in dotted-quad form.
pub open spec fn dotted(ip: Seq<u8>) -> Seq<char> {
    decimal(ip[0] as nat) + seq!['.'] + decimal(ip[1] as nat) + seq!['.'] + decimal(ip[2] as nat)
        + seq!['.'] + decimal(ip[3] as nat)
}

/// Append an IPv4 address in dotted-quad form.
pub(crate) fn push_ip(s: &mut String, ip: [u8; 4])
    ensures
        final(s)@ == old(s)@ + dotted(ip@),
{
    push_decimal(s, ip[0] as u64);
    s.push('.');
    push_decimal(s, ip[1] as u64);
    s.push('.');
    push_decimal(s, ip[2] as u64);
    s.push('.');
    push_decimal(s, ip[3] as u64);
    assert(s@ =~= old(s)@ + dotted(ip@));
}

/// What separates the parts of a text.
#[derive(Clone, Copy, PartialEq, Eq, Structural, Debug)]
pub enum Separator {
    /// The separator of path components.
    Slash,
    /// Any white space, as Unicode defines it.
    Whitespace,
}

/// Whether `c` is white space, as Unicode defines it.
pub open spec fn white(c: char) -> bool {
    ||| '\u{9}' <= c <= '\u{d}'
    ||| c == ' '
    ||| c == '\u{85}'
    ||| c == '\u{a0}'
    ||| c == '\u{1680}'
    ||| '\u{2000}' <= c <= '\u{200a}'
    ||| c == '\u{2028}'
    ||| c == '\u{2029}'
    ||| c == '\u{202f}'
    ||| c == '\u{205f}'
    ||| c == '\u{3000}'
}

/// Whether `c` separates.
pub open spec fn separates(sep: Separator, c: char) -> bool {
    match sep {
        Separator::Slash => c == '/',
        Separator::Whitespace => white(c),
    }
}

/// Where the first separator in `s` stands; behind the end if there is none.
pub open spec fn first_sep(s: Seq<char>, sep: Separator) -> int
    decreases s.len(),
{
    if s.len() == 0 || separates(sep, s[0]) {
        0
    } else {
        1 + first_sep(s.skip(1), sep)
    }
}

/// The non-empty parts of `s` between separators, in order.
pub open spec fn parts(s: Seq<char>, sep: Separator) -> Seq<Seq<char>>
    decreases s.len(),
{
    if s.len() == 0 {
        seq![]
    } else if separates(sep, s[0]) {
        parts(s.skip(1), sep)
    } else {
        let n = first_sep(s, sep);
        if 0 < n <= s.len() {
            seq![s.take(n)] + parts(s.skip(n), sep)
        } else {
            seq![]
        }
    }
}

proof fn lemma_first_sep(s: Seq<char>, n: int, sep: Separator)
    requires
        0 <= n <= s.len(),
        forall|i: int| 0 <= i < n ==> !separates(sep, #[trigger] s[i]),
        n < s.len() ==> separates(sep, s[n]),
    ensures
        first_sep(s, sep) == n,
    decreases n,
{
    if n > 0 {
        assert(!separates(sep, s[0]));
        assert forall|i: int| 0 <= i < n - 1 implies !separates(sep, #[trigger] s.skip(1)[i]) by {
            assert(s.skip(1)[i] == s[i + 1]);
        }
        if n < s.len() {
            assert(s.skip(1)[n - 1] == s[n]);
        }
        lemma_first_sep(s.skip(1), n - 1, sep);
    }
}

/// A part, a separator and a rest.
proof fn lemma_parts_step(cur: Seq<char>, c: char, rest: Seq<char>, sep: Separator)
    requires
        forall|i: int| 0 <= i < cur.len() ==> !separates(sep, #[trigger] cur[i]),
        separates(sep, c),
    ensures
        parts(cur + seq![c] + rest, sep) == (if cur.len() == 0 {
            seq![]
        } else {
            seq![cur]
        }) + parts(rest, sep),
{
    let s = cur + seq![c] + rest;
    let n = cur.len() as int;
    if n == 0 {
        assert(s.skip(1) =~= rest);
        assert(s[0] == c);
        assert(parts(s, sep) =~= seq![] + parts(rest, sep));
    } else {
        assert forall|i: int| 0 <= i < n implies !separates(sep, #[trigger] s[i]) by {
            assert(s[i] == cur[i]);
        }
        assert(s[n] == c);
        lemma_first_sep(s, n, sep);
        assert(s.take(n) =~= cur);
        let t = s.skip(n);
        assert(t[0] == c);
        assert(t.skip(1) =~= rest);
        assert(!separates(sep, s[0]));
        assert(parts(t, sep) == parts(rest, sep));
    }
}

pub(crate) proof fn lemma_parts_last(cur: Seq<char>, sep: Separator)
    requires
        forall|i: int| 0 <= i < cur.len() ==> !separates(sep, #[trigger] cur[i]),
    ensures
        parts(cur, sep) == if cur.len() == 0 {
            seq![]
        } else {
            seq![cur]
        },
{
    if cur.len() > 0 {
        lemma_first_sep(cur, cur.len() as int, sep);
        assert(!separates(sep, cur[0]));
        assert(cur.take(cur.len() as int) =~= cur);
        assert(cur.skip(cur.len() as int) =~= seq![]);
        assert(parts(cur.skip(cur.len() as int), sep) =~= seq![]);
        assert(parts(cur, sep) =~= seq![cur]);
    }
}

pub(crate) fn is_separator(sep: Separator, c: char) -> (r: bool)
    ensures
        r == separates(sep, c),
{
    match sep {
        Separator::Slash => c == '/',
        Separator::Whitespace => {
            ('\u{9}' <= c && c <= '\u{d}') || c == ' ' || c == '\u{85}' || c == '\u{a0}' || c
                == '\u{1680}' || ('\u{2000}' <= c && c <= '\u{200a}') || c == '\u{2028}' || c
                == '\u{2029}' || c == '\u{202f}' || c == '\u{205f}' || c == '\u{3000}'
        },
    }
}

/// The texts that a list of strings holds.
pub open spec fn texts(v: Seq<String>) -> Seq<Seq<char>> {
    v.map_values(|s: String| s@)
}

/// The characters of `s`.
pub(crate) fn chars_of(s: &str) -> (r: Vec<char>)
    ensures
        r@ == s@,
{
    let mut r: Vec<char> = Vec::new();
    for c in it: s.chars()
        invariant
            r@ == it.seq().take(it.index()),
    {
        r.push(c);
    }
    assert(s@.take(s@.len() as int) =~= s@);
    r
}

/// The non-empty parts of `s` between separators, in order.
pub(crate) fn split(s: &[char], sep: Separator) -> (r: Vec<String>)
    ensures
        texts(r@) == parts(s@, sep),
{
    let mut r: Vec<String> = Vec::new();
    let mut cur = String::new();
    let mut i: usize = 0;
    let mut empty = true;
    assert(texts(r@) =~= seq![]);
    assert(cur@ + s@.skip(0) =~= s@);
    assert(seq![] + parts(s@, sep) =~= parts(s@, sep));
    while i < s.len()
        invariant
            i <= s@.len(),
            empty == (cur@.len() == 0),
            forall|j: int| 0 <= j < cur@.len() ==> !separates(sep, #[trigger] cur@[j]),
            texts(r@) + parts(cur@ + s@.skip(i as int), sep) == parts(s@, sep),
        decreases s@.len() - i,
    {
        let c = s[i];
        let ghost before = texts(r@);
        let ghost old_cur = cur@;
        let ghost rest = s@.skip(i + 1);
        assert(old_cur + s@.skip(i as int) =~= old_cur + seq![c] + rest);
        if is_separator(sep, c) {
            proof {
                lemma_parts_step(old_cur, c, rest, sep);
            }
            if !empty {
                r.push(cur);
                cur = String::new();
                assert(texts(r@) =~= before.push(old_cur));
                assert(before.push(old_cur) + parts(rest, sep) =~= before + (seq![old_cur] + parts(
                    rest,
                    sep,
                )));
            } else {
                assert(before + (seq![] + parts(rest, sep)) =~= before + parts(rest, sep));
            }
            assert(cur@ + rest =~= rest);
            empty = true;
        } else {
            cur.push(c);
            empty = false;
            assert(cur@ + rest =~= old_cur + seq![c] + rest);
        }
        i = i + 1;
    }
    assert(cur@ + s@.skip(i as int) =~= cur@);
    proof {
        lemma_parts_last(cur@, sep);
    }
    let ghost before = texts(r@);
    let ghost old_cur = cur@;
    if !empty {
        r.push(cur);
        assert(texts(r@) =~= before.push(old_cur));
        assert(before.push(old_cur) =~= before + seq![old_cur]);
    } else {
        assert(before + seq![] =~= before);
    }
    r
}

/// `str::from_utf8`: the text that the bytes encode. If they are not valid UTF-8,
/// the error's `valid_up_to`: the length of the longest start of them that is.
#[verifier::external_body]
pub(crate) fn from_utf8(b: &[u8]) -> (r: Result<&str, usize>)
    ensures
        r is Ok <==> valid_utf8(b@),
        r is Ok ==> r->Ok_0@ == decode_utf8(b@),
        r is Err ==> {
            &&& r->Err_0 <= b@.len()
            &&& valid_utf8(b@.take(r->Err_0 as int))
            &&& forall|m: int| r->Err_0 < m <= b@.len() ==> !valid_utf8(#[trigger] b@.take(m))
        },
{
    match std::str::from_utf8(b) {
        Ok(s) => Ok(s),
        Err(e) => Err(e.valid_up_to()),
    }
}

/// The text that `String::from_utf8_lossy` makes of bytes.
pub uninterp spec fn lossy(b: Seq<u8>) -> Seq<char>;

/// `String::from_utf8_lossy`: the text that the bytes encode. Where they are not
/// valid UTF-8, replacement characters stand for what is not; how many is not
/// said here.
#[verifier::external_body]
pub(crate) fn from_utf8_lossy(b: &[u8]) -> (r: String)
    ensures
        r@ == lossy(b@),
        valid_utf8(b@) ==> r@ == decode_utf8(b@),
{
    String::from_utf8_lossy(b).into_owned()
}

/// A copy of `s` as a string.
pub(crate) fn owned(s: &str) -> (r: String)
    ensures
        r@ == s@,
{
    s.to_owned()
}

/// Whether two texts are the same.
pub(crate) fn same_text(a: &str, b: &str) -> (r: bool)
    ensures
        r == (a@ == b@),
{
    owned(a) == owned(b)
}

/// The text that bytes encode, or another text if they are not valid UTF-8.
pub open spec fn utf8_or(b: Seq<u8>, other: Seq<char>) -> Seq<char> {
    if valid_utf8(b) {
        decode_utf8(b)
    } else {
        other
    }
}

/// Append the text that `b` encodes, or `other` if it is not valid UTF-8.
pub(crate) fn push_utf8_or(s: &mut String, b: &[u8], other: &str)
    ensures
        final(s)@ == old(s)@ + utf8_or(b@, other@),
{
    match from_utf8(b) {
        Ok(t) => push_text(s, t),
        Err(_) => push_text(s, other),
    }
}

/// The texts with `sep` between them.
pub open spec fn joined(v: Seq<Seq<char>>, sep: Seq<char>) -> Seq<char>
    decreases v.len(),
{
    if v.len() == 0 {
        seq![]
    } else if v.len() == 1 {
        v[0]
    } else {
        joined(v.drop_last(), sep) + sep + v.last()
    }
}

/// The texts from place `from` on, with a space between them.
pub(crate) fn join(v: &Vec<String>, from: usize) -> (r: String)
    requires
        from <= v@.len(),
    ensures
        r@ == joined(texts(v@).skip(from as int), " "@),
{
    let mut r = String::new();
    let ghost all = texts(v@).skip(from as int);
    let mut i: usize = from;
    assert(all.take(0) =~= seq![]);
    while i < v.len()
        invariant
            from <= i <= v@.len(),
            all == texts(v@).skip(from as int),
            r@ == joined(all.take(i - from), " "@),
        decreases v@.len() - i,
    {
        let ghost k = i - from;
        assert(all.take(k + 1).drop_last() =~= all.take(k));
        assert(all.take(k + 1).last() == v@[i as int]@);
        let ghost before = r@;
        if i > from {
            push_text(&mut r, " ");
        }
        push_text(&mut r, v[i].as_str());
        if i == from {
            assert(all.take(1)[0] == v@[i as int]@);
            assert(r@ =~= v@[i as int]@);
        }
        i = i + 1;
    }
    assert(all.take(v@.len() - from) =~= all);
    r
}

/// `n` spaces.
pub open spec fn spaces(n: int) -> Seq<char> {
    Seq::new(
        if n > 0 {
            n as nat
        } else {
            0
        },
        |i: int| ' ',
    )
}

/// `s` with spaces in front, up to a width.
pub open spec fn right_aligned(s: Seq<char>, width: nat) -> Seq<char> {
    spaces(width - s.len()) + s
}

/// `s` with spaces behind, up to a width.
pub open spec fn left_aligned(s: Seq<char>, width: nat) -> Seq<char> {
    s + spaces(width - s.len())
}

fn push_spaces(s: &mut String, n: usize)
    ensures
        final(s)@ == old(s)@ + spaces(n as int),
{
    let mut i: usize = 0;
    assert(s@ =~= old(s)@ + spaces(0));
    while i < n
        invariant
            i <= n,
            s@ == old(s)@ + spaces(i as int),
        decreases n - i,
    {
        s.push(' ');
        i = i + 1;
        assert(s@ =~= old(s)@ + spaces(i as int));
    }
}

pub(crate) fn push_right(s: &mut String, t: &str, width: usize)
    ensures
        final(s)@ == old(s)@ + right_aligned(t@, width as nat),
{
    let len: usize = t.unicode_len();
    if len < width {
        push_spaces(s, width - len);
    } else {
        assert(spaces(width - t@.len()) =~= seq![]);
        assert(s@ =~= old(s)@ + spaces(width - t@.len()));
    }
    push_text(s, t);
    assert(s@ =~= old(s)@ + right_aligned(t@, width as nat));
}

pub(crate) fn push_left(s: &mut String, t: &str, width: usize)
    ensures
        final(s)@ == old(s)@ + left_aligned(t@, width as nat),
{
    let len: usize = t.unicode_len();
    push_text(s, t);
    if len < width {
        push_spaces(s, width - len);
    }
    assert(s@ =~= old(s)@ + left_aligned(t@, width as nat));
}

/// `n` in decimal.
pub(crate) fn decimal_string(n: u64) -> (r: String)
    ensures
        r@ == decimal(n as nat),
{
    let mut r = String::new();
    push_decimal(&mut r, n);
    assert(r@ =~= decimal(n as nat));
    r
}

/// How many bytes at the start of `b` begin no valid character.
pub open spec fn bad_len(b: Seq<u8>) -> int
    decreases b.len(),
{
    if b.len() == 0 || valid_first_scalar(b) {
        0
    } else {
        1 + bad_len(b.skip(1))
    }
}

/// The text of bytes of which not all need be valid UTF-8: valid stretches as they
/// are, and `mark` for each stretch between them.
pub open spec fn readable(b: Seq<u8>, mark: Seq<char>) -> Seq<char>
    decreases b.len(),
{
    if b.len() == 0 {
        seq![]
    } else if valid_first_scalar(b) {
        seq![decode_first_scalar(b) as char] + readable(pop_first_scalar(b), mark)
    } else {
        let n = bad_len(b);
        if 0 < n <= b.len() {
            mark + readable(b.skip(n), mark)
        } else {
            seq![]
        }
    }
}

proof fn lemma_first_scalar_extends(a: Seq<u8>, c: Seq<u8>)
    requires
        a.len() > 0,
        valid_first_scalar(a),
    ensures
        valid_first_scalar(a + c),
        decode_first_scalar(a + c) == decode_first_scalar(a),
        pop_first_scalar(a + c) == pop_first_scalar(a) + c,
        0 < length_of_first_scalar(a) <= a.len(),
{
    let n = length_of_first_scalar(a);
    assert((a + c)[0] == a[0]);
    if a.len() > 1 {
        assert((a + c)[1] == a[1]);
    }
    if a.len() > 2 {
        assert((a + c)[2] == a[2]);
    }
    if a.len() > 3 {
        assert((a + c)[3] == a[3]);
    }
    assert(pop_first_scalar(a + c) =~= pop_first_scalar(a) + c);
}

/// Bytes that start with a valid character have a valid start.
proof fn lemma_first_scalar_is_valid(b: Seq<u8>)
    requires
        b.len() > 0,
        valid_first_scalar(b),
    ensures
        0 < length_of_first_scalar(b) <= b.len(),
        valid_utf8(b.take(length_of_first_scalar(b))),
{
    let n = length_of_first_scalar(b);
    let a = b.take(n);
    assert(a[0] == b[0]);
    if n > 1 {
        assert(a[1] == b[1]);
    }
    if n > 2 {
        assert(a[2] == b[2]);
    }
    if n > 3 {
        assert(a[3] == b[3]);
    }
    assert(pop_first_scalar(a) =~= seq![]);
    reveal_with_fuel(valid_utf8, 2);
}

/// Valid bytes are readable as the text that they encode, whatever follows them.
pub proof fn law_valid_stretch_is_kept(a: Seq<u8>, c: Seq<u8>, mark: Seq<char>)
    requires
        valid_utf8(a),
    ensures
        readable(a + c, mark) == decode_utf8(a) + readable(c, mark),
    decreases a.len(),
{
    if a.len() == 0 {
        assert(a + c =~= c);
        assert(decode_utf8(a) + readable(c, mark) =~= readable(c, mark));
    } else {
        lemma_first_scalar_extends(a, c);
        let rest = pop_first_scalar(a);
        law_valid_stretch_is_kept(rest, c, mark);
        let x = seq![decode_first_scalar(a) as char];
        assert(x + (decode_utf8(rest) + readable(c, mark)) =~= (x + decode_utf8(rest)) + readable(
            c,
            mark,
        ));
    }
}

/// Behind the longest valid start comes no valid character.
proof fn lemma_longest_start(b: Seq<u8>, n: int)
    requires
        0 <= n < b.len(),
        valid_utf8(b.take(n)),
        forall|m: int| n < m <= b.len() ==> !valid_utf8(#[trigger] b.take(m)),
    ensures
        !valid_first_scalar(b.skip(n)),
{
    let c = b.skip(n);
    if valid_first_scalar(c) {
        lemma_first_scalar_is_valid(c);
        let k = length_of_first_scalar(c);
        valid_utf8_concat(b.take(n), c.take(k));
        assert(b.take(n) + c.take(k) =~= b.take(n + k));
        assert(!valid_utf8(b.take(n + k)));
    }
}

/// Whether a valid character starts `b`.
fn starts_valid(b: &[u8]) -> (r: bool)
    requires
        b@.len() > 0,
    ensures
        r == valid_first_scalar(b@),
{
    match from_utf8(b) {
        Ok(_) => true,
        Err(n) => {
            proof {
                if n == 0 {
                    assert(b@.skip(0) =~= b@);
                    lemma_longest_start(b@, 0);
                } else {
                    let a = b@.take(n as int);
                    lemma_first_scalar_extends(a, b@.skip(n as int));
                    assert(a + b@.skip(n as int) =~= b@);
                }
            }
            n > 0
        },
    }
}

/// Append the text of bytes of which not all need be valid UTF-8, with `mark` for
/// each stretch that is not.
pub(crate) fn push_readable(s: &mut String, b: &[u8], mark: &str)
    ensures
        final(s)@ == old(s)@ + readable(b@, mark@),
{
    let mut i: usize = 0;
    assert(b@.skip(0) =~= b@);
    assert(s@ + readable(b@, mark@) =~= old(s)@ + readable(b@, mark@));
    while i < b.len()
        invariant
            i <= b@.len(),
            s@ + readable(b@.skip(i as int), mark@) == old(s)@ + readable(b@, mark@),
        decreases b@.len() - i,
    {
        let rest = vstd::slice::slice_subrange(b, i, b.len());
        let ghost before = s@;
        assert(rest@ =~= b@.skip(i as int));
        match from_utf8(rest) {
            Ok(t) => {
                push_text(s, t);
                proof {
                    law_valid_stretch_is_kept(rest@, seq![], mark@);
                    assert(rest@ + seq![] =~= rest@);
                    assert(before + (decode_utf8(rest@) + seq![]) =~= before + decode_utf8(rest@));
                }
                return;
            },
            Err(n) => {
                proof {
                    if n == rest@.len() {
                        assert(rest@.take(n as int) =~= rest@);
                    }
                    law_valid_stretch_is_kept(rest@.take(n as int), rest@.skip(n as int), mark@);
                    assert(rest@.take(n as int) + rest@.skip(n as int) =~= rest@);
                    lemma_longest_start(rest@, n as int);
                }
                push_utf8_or(s, vstd::slice::slice_subrange(rest, 0, n), "");
                assert(rest@.subrange(0, n as int) =~= rest@.take(n as int));
                push_text(s, mark);
                let k: usize = skip_bad(vstd::slice::slice_subrange(rest, n, rest.len()));
                proof {
                    let bad = rest@.skip(n as int);
                    assert(rest@.subrange(n as int, rest@.len() as int) =~= bad);
                    assert(bad.skip(k as int) =~= b@.skip(i + n + k));
                    let later = readable(bad.skip(k as int), mark@);
                    assert(readable(bad, mark@) == mark@ + later);
                    assert(before + (decode_utf8(rest@.take(n as int)) + (mark@ + later)) =~= s@
                        + later);
                }
                i = i + n + k;
            },
        }
    }
    assert(b@.skip(i as int) =~= seq![]);
    assert(s@ + seq![] =~= s@);
}

/// How many bytes at the start of `b`, which does not start with a valid character,
/// begin none.
fn skip_bad(b: &[u8]) -> (r: usize)
    requires
        b@.len() > 0,
        !valid_first_scalar(b@),
    ensures
        r == bad_len(b@),
        0 < r <= b@.len(),
{
    let mut k: usize = 1;
    while k < b.len()
        invariant
            1 <= k <= b@.len(),
            bad_len(b@) == k + bad_len(b@.skip(k as int)),
        decreases b@.len() - k,
    {
        let rest = vstd::slice::slice_subrange(b, k, b.len());
        assert(rest@ =~= b@.skip(k as int));
        if starts_valid(rest) {
            return k;
        }
        assert(b@.skip(k as int).skip(1) =~= b@.skip(k + 1));
        k = k + 1;
    }
    k
}

/// The number that decimal digits denote: each weighs ten times the one behind it.
pub open spec fn value_of(s: Seq<char>) -> int
    decreases s.len(),
{
    if s.len() == 0 {
        0
    } else {
        10 * value_of(s.drop_last()) + (s.last() as u32 - 48)
    }
}

/// Whether a text is one of decimal digits.
pub open spec fn all_digits(s: Seq<char>) -> bool {
    forall|i: int| 0 <= i < s.len() ==> '0' <= #[trigger] s[i] <= '9'
}

/// A number in decimal denotes the number again; it is made of digits, and the first
/// is a zero only for zero itself.
pub proof fn law_decimal_reads_back(n: nat)
    ensures
        value_of(decimal(n)) == n,
        all_digits(decimal(n)),
        decimal(n).len() > 0,
        n > 0 ==> decimal(n)[0] != '0',
        n < 10 ==> decimal(n).len() == 1,
    decreases n,
{
    reveal_with_fuel(value_of, 2);
    if n >= 10 {
        law_decimal_reads_back(n / 10);
        assert(decimal(n).drop_last() =~= decimal(n / 10));
        assert(decimal(n)[0] == decimal(n / 10)[0]);
    } else {
        assert(decimal(n).drop_last() =~= seq![]);
    }
}

/// Which characters separate, by their numbers: the slash, 47; and of white space, in
/// ASCII the space, 32, and those from the tab, 9, to the carriage return, 13, and
/// beyond ASCII the spaces of other widths and the line and paragraph separators.
pub proof fn law_separators(c: char)
    ensures
        separates(Separator::Slash, c) <==> c as u32 == 47,
        separates(Separator::Whitespace, c) <==> {
            let n = c as u32;
            ||| 9 <= n <= 13 || n == 32 || n == 0x85 || n == 0xa0
            ||| n == 0x1680 || 0x2000 <= n <= 0x200a || n == 0x2028 || n == 0x2029
            ||| n == 0x202f || n == 0x205f || n == 0x3000
        },
{
}

/// Whether each of the texts is a part: not empty, and without separators.
pub open spec fn are_parts(v: Seq<Seq<char>>, sep: Separator) -> bool {
    &&& forall|i: int| 0 <= i < v.len() ==> (#[trigger] v[i]).len() > 0
    &&& forall|i: int, j: int|
        0 <= i < v.len() && 0 <= j < v[i].len() ==> !separates(sep, #[trigger] v[i][j])
}

proof fn lemma_joined_first(v: Seq<Seq<char>>, sep: Seq<char>)
    requires
        v.len() > 1,
    ensures
        joined(v, sep) == v[0] + sep + joined(v.skip(1), sep),
    decreases v.len(),
{
    if v.len() == 2 {
        assert(v.drop_last() =~= seq![v[0]]);
        assert(v.skip(1) =~= seq![v[1]]);
        reveal_with_fuel(joined, 2);
    } else {
        lemma_joined_first(v.drop_last(), sep);
        assert(v.drop_last().skip(1) =~= v.skip(1).drop_last());
        let mid = joined(v.skip(1).drop_last(), sep);
        assert(v[0] + sep + mid + sep + v.last() =~= v[0] + sep + (mid + sep + v.last()));
    }
}

/// Parts that are joined by a separator are split into the same parts again; and so
/// they are if separators stand before and behind them.
pub proof fn law_split_undoes_join(v: Seq<Seq<char>>, c: char, sep: Separator)
    requires
        are_parts(v, sep),
        separates(sep, c),
    ensures
        parts(joined(v, seq![c]), sep) == v,
        parts(seq![c] + joined(v, seq![c]), sep) == v,
        parts(joined(v, seq![c]) + seq![c], sep) == v,
    decreases v.len(),
{
    let s = joined(v, seq![c]);
    let none = Seq::<char>::empty();
    if v.len() == 0 {
        lemma_parts_step(none, c, none, sep);
        assert(none + seq![c] + none =~= seq![c]);
        assert(s + seq![c] =~= seq![c]);
        assert(seq![c] + s =~= seq![c]);
        assert(parts(none, sep) =~= v);
        assert(Seq::<Seq<char>>::empty() + v =~= v);
    } else {
        let cur = v[0];
        let rest = v.skip(1);
        assert forall|j: int| 0 <= j < cur.len() implies !separates(sep, #[trigger] cur[j]) by {
            assert(!separates(sep, v[0][j]));
        }
        assert forall|i: int| 0 <= i < rest.len() implies (#[trigger] rest[i]).len() > 0 by {
            assert(rest[i] == v[i + 1]);
        }
        assert forall|i: int, j: int| 0 <= i < rest.len() && 0 <= j < rest[i].len() implies !separates(
            sep,
            #[trigger] rest[i][j],
        ) by {
            assert(rest[i][j] == v[i + 1][j]);
        }
        law_split_undoes_join(rest, c, sep);
        assert(seq![cur] + rest =~= v);
        if v.len() == 1 {
            assert(s == cur);
            lemma_parts_last(cur, sep);
            assert(rest =~= seq![]);
            assert(seq![cur] =~= v);
            lemma_parts_step(cur, c, none, sep);
            assert(cur + seq![c] + none =~= s + seq![c]);
            assert(parts(none, sep) =~= seq![]);
        } else {
            let t = joined(rest, seq![c]);
            lemma_joined_first(v, seq![c]);
            lemma_parts_step(cur, c, t, sep);
            lemma_parts_step(cur, c, t + seq![c], sep);
            assert(cur + seq![c] + (t + seq![c]) =~= s + seq![c]);
        }
        lemma_parts_step(none, c, s, sep);
        assert(none + seq![c] + s =~= seq![c] + s);
        assert(Seq::<Seq<char>>::empty() + v =~= v);
    }
}

/// Aligning fills a text up with spaces to a width, in front or behind, and cuts
/// nothing off.
pub proof fn law_alignment(s: Seq<char>, width: nat, i: int)
    ensures
        ({
            let r = right_aligned(s, width);
            let l = left_aligned(s, width);
            let n = if s.len() < width {
                width
            } else {
                s.len()
            };
            &&& r.len() == n && l.len() == n
            &&& r.skip(n - s.len()) == s
            &&& l.take(s.len() as int) == s
            &&& 0 <= i < n - s.len() ==> r[i] as u32 == 32
            &&& s.len() <= i < n ==> l[i] as u32 == 32
        }),
{
    let r = right_aligned(s, width);
    let l = left_aligned(s, width);
    assert(r.skip(r.len() - s.len()) =~= s);
    assert(l.take(s.len() as int) =~= s);
}

proof fn lemma_bad_len(a: Seq<u8>, c: Seq<u8>)
    requires
        forall|i: int| 0 <= i < a.len() ==> !valid_first_scalar(#[trigger] (a + c).skip(i)),
        c.len() == 0 || valid_first_scalar(c),
    ensures
        bad_len(a + c) == a.len(),
    decreases a.len(),
{
    let b = a + c;
    if a.len() == 0 {
        assert(b =~= c);
    } else {
        assert(b.skip(0) =~= b);
        assert(!valid_first_scalar(b.skip(0)));
        let d = a.skip(1);
        assert(b.skip(1) =~= d + c);
        assert forall|i: int| 0 <= i < d.len() implies !valid_first_scalar(
            #[trigger] (d + c).skip(i),
        ) by {
            assert((d + c).skip(i) =~= b.skip(i + 1));
        }
        lemma_bad_len(d, c);
    }
}

/// A stretch of bytes at none of which a valid character starts is readable as one
/// mark, however long it is.
pub proof fn law_invalid_stretch_is_marked_once(a: Seq<u8>, c: Seq<u8>, mark: Seq<char>)
    requires
        a.len() > 0,
        forall|i: int| 0 <= i < a.len() ==> !valid_first_scalar(#[trigger] (a + c).skip(i)),
        c.len() == 0 || valid_first_scalar(c),
    ensures
        readable(a + c, mark) == mark + readable(c, mark),
{
    let b = a + c;
    lemma_bad_len(a, c);
    assert(b.skip(0) =~= b);
    assert(!valid_first_scalar(b.skip(0)));
    assert(b.skip(a.len() as int) =~= c);
}

/// The bytes of a text are read as the text; bytes of no text as the other.
pub proof fn law_text_or_other(t: Seq<char>, b: Seq<u8>, other: Seq<char>)
    ensures
        utf8_or(encode_utf8(t), other) == t,
        !valid_utf8(b) ==> utf8_or(b, other) == other,
{
    encode_utf8_valid_utf8(t);
    encode_utf8_decode_utf8(t);
}

/// What a separator joins has the parts of both sides.
pub proof fn law_parts_of_both_sides(a: Seq<char>, c: char, b: Seq<char>, sep: Separator)
    requires
        separates(sep, c),
    ensures
        parts(a + seq![c] + b, sep) == parts(a, sep) + parts(b, sep),
    decreases a.len(),
{
    let s = a + seq![c] + b;
    if exists|i: int| 0 <= i < a.len() && separates(sep, #[trigger] a[i]) {
        let n = lemma_first_separator(a, sep);
        let cur = a.take(n);
        let d = a[n];
        let rest = a.skip(n + 1);
        assert(a =~= cur + seq![d] + rest);
        assert(s =~= cur + seq![d] + (rest + seq![c] + b));
        lemma_parts_step(cur, d, rest, sep);
        lemma_parts_step(cur, d, rest + seq![c] + b, sep);
        law_parts_of_both_sides(rest, c, b, sep);
        let first = if cur.len() == 0 {
            seq![]
        } else {
            seq![cur]
        };
        assert(first + (parts(rest, sep) + parts(b, sep)) =~= (first + parts(rest, sep)) + parts(
            b,
            sep,
        ));
    } else {
        lemma_parts_step(a, c, b, sep);
        lemma_parts_last(a, sep);
    }
}

/// The place of the first separator in a text that has one.
proof fn lemma_first_separator(s: Seq<char>, sep: Separator) -> (n: int)
    requires
        exists|i: int| 0 <= i < s.len() && separates(sep, #[trigger] s[i]),
    ensures
        0 <= n < s.len(),
        separates(sep, s[n]),
        forall|i: int| 0 <= i < s.take(n).len() ==> !separates(sep, #[trigger] s.take(n)[i]),
    decreases s.len(),
{
    if separates(sep, s[0]) {
        0
    } else {
        let t = s.skip(1);
        let i = choose|i: int| 0 <= i < s.len() && separates(sep, #[trigger] s[i]);
        assert(t[i - 1] == s[i]);
        let n = lemma_first_separator(t, sep);
        assert forall|j: int| 0 <= j < s.take(n + 1).len() implies !separates(
            sep,
            #[trigger] s.take(n + 1)[j],
        ) by {
            if j > 0 {
                assert(t.take(n)[j - 1] == s[j]);
            }
        }
        n + 1
    }
}

proof fn lemma_parts_of_spaces(n: nat)
    ensures
        parts(spaces(n as int), Separator::Whitespace) == Seq::<Seq<char>>::empty(),
    decreases n,
{
    if n > 0 {
        let m = (n - 1) as nat;
        lemma_parts_of_spaces(m);
        let none = Seq::<char>::empty();
        law_parts_of_both_sides(none, ' ', spaces(m as int), Separator::Whitespace);
        assert(none + seq![' '] + spaces(m as int) =~= spaces(n as int));
        assert(parts(none, Separator::Whitespace) =~= Seq::<Seq<char>>::empty());
        assert(Seq::<Seq<char>>::empty() + Seq::<Seq<char>>::empty() =~= Seq::<
            Seq<char>,
        >::empty());
    }
}

/// Spaces around a text do not change its words.
pub(crate) proof fn lemma_aligned_words(s: Seq<char>, width: nat)
    ensures
        parts(right_aligned(s, width), Separator::Whitespace) == parts(s, Separator::Whitespace),
        parts(left_aligned(s, width), Separator::Whitespace) == parts(s, Separator::Whitespace),
{
    let ws = Separator::Whitespace;
    let empty = Seq::<Seq<char>>::empty();
    if s.len() < width {
        let m = width - s.len() - 1;
        lemma_parts_of_spaces(m as nat);
        law_parts_of_both_sides(spaces(m), ' ', s, ws);
        assert(spaces(m) + seq![' '] + s =~= right_aligned(s, width));
        assert(empty + parts(s, ws) =~= parts(s, ws));
        law_parts_of_both_sides(s, ' ', spaces(m), ws);
        assert(s + seq![' '] + spaces(m) =~= left_aligned(s, width));
        assert(parts(s, ws) + empty =~= parts(s, ws));
    } else {
        assert(right_aligned(s, width) =~= s);
        assert(left_aligned(s, width) =~= s);
    }
}

/// A number in decimal is one word, whatever the separator.
pub(crate) proof fn lemma_decimal_word(n: nat, sep: Separator)
    ensures
        parts(decimal(n), sep) == seq![decimal(n)],
        forall|i: int| 0 <= i < decimal(n).len() ==> !separates(sep, #[trigger] decimal(n)[i]),
{
    law_decimal_reads_back(n);
    let s = decimal(n);
    assert forall|i: int| 0 <= i < s.len() implies !separates(sep, #[trigger] s[i]) by {
        assert('0' <= s[i] <= '9');
    }
    lemma_parts_last(s, sep);
}

/// An address in dotted-quad form is one word.
pub(crate) proof fn lemma_dotted_word(ip: Seq<u8>)
    ensures
        dotted(ip).len() > 0,
        forall|i: int|
            0 <= i < dotted(ip).len() ==> !separates(
                Separator::Whitespace,
                #[trigger] dotted(ip)[i],
            ),
        parts(dotted(ip), Separator::Whitespace) == seq![dotted(ip)],
{
    let ws = Separator::Whitespace;
    let a = decimal(ip[0] as nat);
    let b = decimal(ip[1] as nat);
    let c = decimal(ip[2] as nat);
    let d = decimal(ip[3] as nat);
    lemma_decimal_word(ip[0] as nat, ws);
    lemma_decimal_word(ip[1] as nat, ws);
    lemma_decimal_word(ip[2] as nat, ws);
    lemma_decimal_word(ip[3] as nat, ws);
    let s = dotted(ip);
    assert forall|i: int| 0 <= i < s.len() implies !separates(ws, #[trigger] s[i]) by {
        let p = a + seq!['.'];
        let q = p + b + seq!['.'];
        let r = q + c + seq!['.'];
        assert(s =~= r + d);
        if i < a.len() {
            assert(s[i] == a[i]);
        } else if i < p.len() {
            assert(s[i] == '.');
        } else if i < p.len() + b.len() {
            assert(s[i] == b[i - p.len()]);
        } else if i < q.len() {
            assert(s[i] == '.');
        } else if i < q.len() + c.len() {
            assert(s[i] == c[i - q.len()]);
        } else if i < r.len() {
            assert(s[i] == '.');
        } else {
            assert(s[i] == d[i - r.len()]);
        }
    }
    lemma_parts_last(s, ws);
}

} // verus!
