//! Strings as sequences of characters, and the byte offsets at which they can be cut.
//!
//! Contracts speak of a string's characters. Positions inside a string are offsets in its UTF-8
//! encoding, as in the standard library.
use vstd::prelude::*;
use vstd::utf8::*;

verus! {

/// The characters with Unicode's `White_Space` property.
pub open spec fn is_space(c: char) -> bool {
    ||| '\u{9}' <= c <= '\u{d}'
    ||| c == ' '
    ||| c == '\u{85}'
    ||| c == '\u{a0}'
    ||| c == '\u{1680}'
    ||| '\u{2000}' <= c <= '\u{200a}'
    ||| c == '\u{2028}'
    ||| c == '\u{2029}'
    ||| c == '\u{202f}'
    ||| c == '\u{205f}'
    ||| c == '\u{3000}'
}

/// `s` without its leading white space.
pub open spec fn trim_start(s: Seq<char>) -> Seq<char>
    decreases s.len(),
{
    if s.len() > 0 && is_space(s.first()) {
        trim_start(s.drop_first())
    } else {
        s
    }
}

/// `s` without its trailing white space.
pub open spec fn trim_end(s: Seq<char>) -> Seq<char>
    decreases s.len(),
{
    if s.len() > 0 && is_space(s.last()) {
        trim_end(s.drop_last())
    } else {
        s
    }
}

/// `s` without the white space at either end.
pub open spec fn trimmed(s: Seq<char>) -> Seq<char> {
    trim_end(trim_start(s))
}

/// The characters of each string.
pub open spec fn string_views(strings: Seq<String>) -> Seq<Seq<char>> {
    strings.map_values(|s: String| s@)
}

/// The offset in the encoding of `s` at which its character number `k` begins.
pub open spec fn offset(s: Seq<char>, k: int) -> nat {
    encode_utf8(s.take(k)).len()
}

/// What is left of `s` from byte `pos` on, where a character begins or the string ends there.
pub open spec fn suffix_at(s: Seq<char>, pos: int) -> Option<Seq<char>> {
    if is_char_boundary(encode_utf8(s), pos) {
        Some(decode_utf8(encode_utf8(s).skip(pos)))
    } else {
        None
    }
}

pub proof fn lemma_encode_concat(a: Seq<char>, b: Seq<char>)
    ensures
        encode_utf8(a + b) == encode_utf8(a) + encode_utf8(b),
    decreases a.len(),
{
    if a.len() == 0 {
        assert(a + b =~= b);
        assert(encode_utf8(a) + encode_utf8(b) =~= encode_utf8(b));
    } else {
        assert((a + b).drop_first() =~= a.drop_first() + b);
        lemma_encode_concat(a.drop_first(), b);
        assert(encode_utf8(a + b) =~= encode_utf8(a) + encode_utf8(b));
    }
}

pub proof fn lemma_encode_injective(a: Seq<char>, b: Seq<char>)
    requires
        encode_utf8(a) == encode_utf8(b),
    ensures
        a == b,
{
    encode_utf8_decode_utf8(a);
    encode_utf8_decode_utf8(b);
}

/// A prefix of an encoding that is itself an encoding ends where a character ends.
pub proof fn lemma_boundary_after_valid(bytes: Seq<u8>, n: int)
    requires
        valid_utf8(bytes),
        0 <= n <= bytes.len(),
        valid_utf8(bytes.take(n)),
    ensures
        is_char_boundary(bytes, n),
{
    assert(bytes.take(n) =~= bytes.subrange(0, n));
    let rest = bytes.subrange(n, bytes.len() as int);
    if !valid_utf8(rest) {
        partial_valid_partial_invalid_utf8(bytes, n);
    }
    if n < bytes.len() {
        assert(rest[0] == bytes[n]);
        assert(!is_continuation_byte(bytes[n]));
        is_char_boundary_iff_not_is_continuation_byte(bytes, n);
    } else {
        is_char_boundary_start_end_of_seq(bytes);
    }
}

/// Cutting a string before its character number `k` cuts its encoding at `offset(s, k)`.
pub proof fn lemma_cut(s: Seq<char>, k: int)
    requires
        0 <= k <= s.len(),
    ensures
        offset(s, k) <= encode_utf8(s).len(),
        is_char_boundary(encode_utf8(s), offset(s, k) as int),
        encode_utf8(s).take(offset(s, k) as int) == encode_utf8(s.take(k)),
        encode_utf8(s).skip(offset(s, k) as int) == encode_utf8(s.skip(k)),
        suffix_at(s, offset(s, k) as int) == Some(s.skip(k)),
{
    lemma_encode_concat(s.take(k), s.skip(k));
    assert(s.take(k) + s.skip(k) =~= s);
    let bytes = encode_utf8(s);
    let n = offset(s, k) as int;
    assert(bytes.take(n) =~= encode_utf8(s.take(k)));
    assert(bytes.skip(n) =~= encode_utf8(s.skip(k)));
    encode_utf8_valid_utf8(s);
    encode_utf8_valid_utf8(s.take(k));
    lemma_boundary_after_valid(bytes, n);
    encode_utf8_decode_utf8(s.skip(k));
}

/// Every place where an encoding can be cut lies before some character, or at the end.
pub proof fn lemma_boundary_is_cut(s: Seq<char>, pos: int) -> (k: int)
    requires
        is_char_boundary(encode_utf8(s), pos),
    ensures
        0 <= k <= s.len(),
        0 <= pos <= encode_utf8(s).len(),
        pos == offset(s, k),
        suffix_at(s, pos) == Some(s.skip(k)),
{
    let bytes = encode_utf8(s);
    encode_utf8_valid_utf8(s);
    encode_utf8_decode_utf8(s);
    assert(0 <= pos <= bytes.len());
    valid_utf8_split(bytes, pos);
    decode_utf8_split(bytes, pos);
    let head = decode_utf8(bytes.subrange(0, pos));
    decode_utf8_encode_utf8(bytes.subrange(0, pos));
    let k = head.len() as int;
    assert(s.take(k) =~= head);
    lemma_cut(s, k);
    k
}

pub proof fn lemma_offset_step(s: Seq<char>, k: int)
    requires
        0 <= k < s.len(),
    ensures
        offset(s, k + 1) == offset(s, k) + encode_scalar(s[k] as u32).len(),
{
    assert(s.take(k + 1) =~= s.take(k) + seq![s[k]]);
    lemma_encode_concat(s.take(k), seq![s[k]]);
    let one = seq![s[k]];
    assert(one.drop_first() =~= Seq::<char>::empty());
    assert(encode_utf8(one) =~= encode_scalar(s[k] as u32)) by {
        reveal_with_fuel(encode_utf8, 2);
    }
}

/// Bytes begin with an encoded string just where the characters begin with that string.
pub proof fn lemma_prefix(s: Seq<char>, p: Seq<char>)
    ensures
        encode_utf8(p).is_prefix_of(encode_utf8(s)) <==> p.is_prefix_of(s),
{
    let (bs, bp) = (encode_utf8(s), encode_utf8(p));
    if p.is_prefix_of(s) {
        assert(s.take(p.len() as int) =~= p);
        lemma_cut(s, p.len() as int);
        assert(bs.take(bp.len() as int) =~= bp);
    }
    if bp.is_prefix_of(bs) {
        let n = bp.len() as int;
        assert(bs.take(n) =~= bp);
        encode_utf8_valid_utf8(s);
        encode_utf8_valid_utf8(p);
        lemma_boundary_after_valid(bs, n);
        let k = lemma_boundary_is_cut(s, n);
        lemma_cut(s, k);
        lemma_encode_injective(s.take(k), p);
        assert(p =~= s.subrange(0, k));
    }
}

/// How many bytes `c` takes in UTF-8.
pub fn char_width(c: char) -> (width: usize)
    ensures
        width == encode_scalar(c as u32).len(),
        1 <= width <= 4,
{
    let code: u32 = c as u32;
    if code <= 0x7f {
        1
    } else if code <= 0x7ff {
        2
    } else if code <= 0xffff {
        3
    } else {
        4
    }
}

/// Whether `c` is white space.
pub fn is_white_space(c: char) -> (res: bool)
    ensures
        res == is_space(c),
{
    ('\u{9}' <= c && c <= '\u{d}') || c == ' ' || c == '\u{85}' || c == '\u{a0}' || c == '\u{1680}'
        || ('\u{2000}' <= c && c <= '\u{200a}') || c == '\u{2028}' || c == '\u{2029}'
        || c == '\u{202f}' || c == '\u{205f}' || c == '\u{3000}'
}

/// The part of `s` from byte `pos` on, if a character begins or the string ends there.
pub fn suffix(s: &str, pos: usize) -> (res: Option<&str>)
    ensures
        match res {
            Some(rest) => suffix_at(s@, pos as int) == Some(rest@),
            None => suffix_at(s@, pos as int) is None,
        },
{
    if s.is_char_boundary(pos) {
        let (_, rest) = s.split_at(pos);
        proof {
            let k = lemma_boundary_is_cut(s@, pos as int);
            lemma_cut(s@, k);
            assert(encode_utf8(s@).skip(pos as int) =~= encode_utf8(s@).subrange(
                pos as int,
                encode_utf8(s@).len() as int,
            ));
            lemma_encode_injective(rest@, s@.skip(k));
        }
        Some(rest)
    } else {
        None
    }
}

/// The part of `s` between two places where characters begin.
pub fn slice(s: &str, start: usize, end: usize) -> (res: &str)
    requires
        exists|i: int, j: int|
            0 <= i <= j <= s@.len() && start == #[trigger] offset(s@, i) && end == #[trigger] offset(
                s@,
                j,
            ),
    ensures
        forall|i: int, j: int|
            0 <= i <= j <= s@.len() && start == #[trigger] offset(s@, i) && end == #[trigger] offset(
                s@,
                j,
            ) ==> res@ == s@.subrange(i, j),
{
    proof {
        let (i, j) = choose|i: int, j: int|
            0 <= i <= j <= s@.len() && start == #[trigger] offset(s@, i) && end == #[trigger] offset(
                s@,
                j,
            );
        lemma_cut(s@, j);
        lemma_offset_of_take(s@, i, j);
        lemma_cut(s@.take(j), i);
    }
    let (head, _) = s.split_at(end);
    proof {
        assert forall|i: int, j: int|
            0 <= i <= j <= s@.len() && start == #[trigger] offset(s@, i) && end == #[trigger] offset(
                s@,
                j,
            ) implies s@.subrange(i, j) == s@.take(j).skip(i) && head@ == s@.take(j) && offset(
            s@.take(j),
            i,
        ) == start by {
            lemma_cut(s@, j);
            assert(encode_utf8(head@) =~= encode_utf8(s@.take(j)));
            lemma_encode_injective(head@, s@.take(j));
            lemma_offset_of_take(s@, i, j);
            assert(s@.subrange(i, j) =~= s@.take(j).skip(i));
        }
    }
    let (_, res) = head.split_at(start);
    proof {
        assert forall|i: int, j: int|
            0 <= i <= j <= s@.len() && start == #[trigger] offset(s@, i) && end == #[trigger] offset(
                s@,
                j,
            ) implies res@ == s@.subrange(i, j) by {
            lemma_cut(head@, i);
            assert(encode_utf8(res@) =~= encode_utf8(head@.skip(i)));
            lemma_encode_injective(res@, head@.skip(i));
        }
    }
    res
}

pub proof fn lemma_offset_of_take(s: Seq<char>, i: int, j: int)
    requires
        0 <= i <= j <= s.len(),
    ensures
        offset(s.take(j), i) == offset(s, i),
        offset(s, i) <= offset(s, j),
        i < j ==> offset(s, i) < offset(s, j),
    decreases j - i,
{
    assert(s.take(j).take(i) =~= s.take(i));
    if i < j {
        lemma_offset_of_take(s, i, j - 1);
        lemma_offset_step(s, j - 1);
        char_is_scalar(s[j - 1]);
    }
}

/// Whether `s` begins with `prefix`.
pub fn starts_with(s: &str, prefix: &str) -> (res: bool)
    ensures
        res == prefix@.is_prefix_of(s@),
{
    proof {
        lemma_prefix(s@, prefix@);
    }
    let bytes = s.as_bytes();
    let wanted = prefix.as_bytes();
    if wanted.len() > bytes.len() {
        return false;
    }
    for i in 0..wanted.len()
        invariant
            wanted.len() <= bytes.len(),
            bytes@ == encode_utf8(s@),
            wanted@ == encode_utf8(prefix@),
            encode_utf8(prefix@).is_prefix_of(encode_utf8(s@)) <==> prefix@.is_prefix_of(s@),
            forall|j: int| 0 <= j < i ==> bytes@[j] == wanted@[j],
    {
        if bytes[i] != wanted[i] {
            assert(!wanted@.is_prefix_of(bytes@));
            return false;
        }
    }
    assert(wanted@ =~= bytes@.subrange(0, wanted@.len() as int));
    true
}

/// Whether two strings hold the same characters.
pub fn same(a: &str, b: &str) -> (res: bool)
    ensures
        res == (a@ == b@),
{
    let res = a.as_bytes().len() == b.as_bytes().len() && starts_with(a, b);
    proof {
        if res {
            assert(a@.take(b@.len() as int) =~= b@);
            lemma_offset_of_take(a@, b@.len() as int, a@.len() as int);
            assert(a@.take(a@.len() as int) =~= a@);
            assert(a@ =~= b@);
        }
        if a@ == b@ {
            assert(b@ =~= a@.subrange(0, b@.len() as int));
        }
    }
    res
}

pub proof fn lemma_trim_start(s: Seq<char>, k: int)
    requires
        0 <= k <= s.len(),
        forall|i: int| 0 <= i < k ==> is_space(#[trigger] s[i]),
        k < s.len() ==> !is_space(s[k]),
    ensures
        trim_start(s) == s.skip(k),
    decreases k,
{
    if k > 0 {
        assert(is_space(s[0]));
        assert forall|i: int| 0 <= i < k - 1 implies is_space(#[trigger] s.drop_first()[i]) by {
            assert(s.drop_first()[i] == s[i + 1]);
        }
        lemma_trim_start(s.drop_first(), k - 1);
        assert(s.drop_first().skip(k - 1) =~= s.skip(k));
    } else {
        assert(s.skip(0) =~= s);
    }
}

pub proof fn lemma_trim_end(s: Seq<char>, k: int)
    requires
        0 <= k <= s.len(),
        forall|i: int| k <= i < s.len() ==> is_space(#[trigger] s[i]),
        k > 0 ==> !is_space(s[k - 1]),
    ensures
        trim_end(s) == s.take(k),
    decreases s.len() - k,
{
    if k < s.len() {
        assert(is_space(s[s.len() - 1]));
        assert forall|i: int| k <= i < s.len() - 1 implies is_space(#[trigger] s.drop_last()[i]) by {
            assert(s.drop_last()[i] == s[i]);
        }
        lemma_trim_end(s.drop_last(), k);
        assert(s.drop_last().take(k) =~= s.take(k));
    } else {
        assert(s.take(k) =~= s);
    }
}

/// `s` without the white space at either end.
pub fn trim(s: &str) -> (res: &str)
    ensures
        res@ == trimmed(s@),
{
    let ghost n = s@.len() as int;
    let mut pos: usize = 0;
    let mut start: usize = 0;
    let mut end: usize = 0;
    let mut blank = true;
    let ghost mut first: int = 0;
    let ghost mut last: int = 0;
    let size: usize = s.as_bytes().len();
    for c in it: s.chars()
        invariant
            it.seq() == s@,
            size == encode_utf8(s@).len(),
            pos == offset(s@, it.index()),
            start == offset(s@, first),
            end == offset(s@, last),
            0 <= first <= it.index(),
            0 <= last <= it.index(),
            forall|i: int| 0 <= i < first ==> is_space(#[trigger] s@[i]),
            forall|i: int| last <= i < it.index() ==> is_space(#[trigger] s@[i]),
            blank ==> first == it.index() && last == 0,
            !blank ==> first < last && !is_space(s@[first]) && !is_space(s@[last - 1]),
    {
        proof {
            assert(c == s@[it.index() as int]);
            lemma_offset_step(s@, it.index() as int);
            lemma_cut(s@, it.index() + 1);
        }
        let width: usize = char_width(c);
        pos = pos + width;
        if is_white_space(c) {
            if blank {
                start = pos;
                proof {
                    first = first + 1;
                }
            }
        } else {
            blank = false;
            end = pos;
            proof {
                last = it.index() + 1;
            }
        }
    }
    if blank {
        proof {
            lemma_trim_start(s@, n);
            lemma_cut(s@, n);
            lemma_cut(s@, 0);
            assert(offset(s@, 0) == 0);
            assert(s@.subrange(0, 0) =~= s@.skip(n));
            assert(trimmed(s@) =~= s@.skip(n));
        }
        slice(s, 0, 0)
    } else {
        proof {
            lemma_trim_start(s@, first);
            let t = s@.skip(first);
            assert forall|i: int| last - first <= i < t.len() implies is_space(#[trigger] t[i]) by {
                assert(t[i] == s@[i + first]);
            }
            assert(t[last - first - 1] == s@[last - 1]);
            lemma_trim_end(t, last - first);
            assert(t.take(last - first) =~= s@.subrange(first, last));
        }
        slice(s, start, end)
    }
}

/// The characters of `s`.
pub fn chars(s: &str) -> (res: Vec<char>)
    ensures
        res@ == s@,
{
    let mut res: Vec<char> = Vec::new();
    for c in it: s.chars()
        invariant
            it.seq() == s@,
            res@ == s@.take(it.index() as int),
    {
        res.push(c);
        assert(s@.take(it.index() + 1) =~= s@.take(it.index() as int).push(c));
    }
    assert(s@.take(s@.len() as int) =~= s@);
    res
}

/// Where a text stands at byte `pos`, the string goes on behind it.
pub proof fn lemma_advance(s: Seq<char>, pos: int, t: Seq<char>)
    requires
        suffix_at(s, pos) is Some,
        t.is_prefix_of(suffix_at(s, pos)->0),
    ensures
        0 <= pos,
        pos + encode_utf8(t).len() <= encode_utf8(s).len(),
        suffix_at(s, pos + encode_utf8(t).len()) == Some(suffix_at(s, pos)->0.skip(t.len() as int)),
{
    let k = lemma_boundary_is_cut(s, pos);
    let n = t.len() as int;
    assert(s.take(k + n) =~= s.take(k) + t) by {
        assert(t =~= s.skip(k).take(n));
    }
    lemma_encode_concat(s.take(k), t);
    lemma_cut(s, k + n);
    assert(s.skip(k).skip(n) =~= s.skip(k + n));
}

/// The offset behind `t`, which stands in `s` at byte `pos`.
pub fn advance(s: &str, pos: usize, t: &str) -> (end: usize)
    requires
        suffix_at(s@, pos as int) matches Some(rest) && t@.is_prefix_of(rest),
    ensures
        end == pos + encode_utf8(t@).len(),
{
    let size: usize = s.as_bytes().len();
    proof {
        lemma_advance(s@, pos as int, t@);
        assert(pos + encode_utf8(t@).len() <= size);
    }
    pos + t.as_bytes().len()
}

/// There is no white space left at the ends of a trimmed text.
pub proof fn lemma_trimmed_ends(s: Seq<char>)
    ensures
        trimmed(s).len() > 0 ==> !is_space(trimmed(s).first()) && !is_space(trimmed(s).last()),
{
    lemma_trim_start_first(s);
    lemma_trim_end_keeps(trim_start(s));
}

proof fn lemma_trim_start_first(s: Seq<char>)
    ensures
        trim_start(s).len() > 0 ==> !is_space(trim_start(s).first()),
    decreases s.len(),
{
    if s.len() > 0 && is_space(s.first()) {
        lemma_trim_start_first(s.drop_first());
    }
}

proof fn lemma_trim_end_keeps(s: Seq<char>)
    ensures
        trim_end(s).is_prefix_of(s),
        trim_end(s).len() > 0 ==> trim_end(s).first() == s.first() && !is_space(trim_end(s).last()),
    decreases s.len(),
{
    if s.len() > 0 && is_space(s.last()) {
        lemma_trim_end_keeps(s.drop_last());
    }
}

/// Trimming a text again changes nothing.
pub proof fn law_trimming_twice_changes_nothing(s: Seq<char>)
    ensures
        trimmed(trimmed(s)) == trimmed(s),
{
    lemma_trimmed_ends(s);
}

/// White space is the 25 characters of Unicode that count as such.
pub proof fn law_white_space_characters(c: char)
    ensures
        is_space(c) <==> seq![
            0x9u32, 0xa, 0xb, 0xc, 0xd, 0x20, 0x85, 0xa0, 0x1680, 0x2000, 0x2001, 0x2002, 0x2003,
            0x2004, 0x2005, 0x2006, 0x2007, 0x2008, 0x2009, 0x200a, 0x2028, 0x2029, 0x202f, 0x205f,
            0x3000,
        ].contains(c as u32),
{
    let codes = seq![
        0x9u32, 0xa, 0xb, 0xc, 0xd, 0x20, 0x85, 0xa0, 0x1680, 0x2000, 0x2001, 0x2002, 0x2003,
        0x2004, 0x2005, 0x2006, 0x2007, 0x2008, 0x2009, 0x200a, 0x2028, 0x2029, 0x202f, 0x205f,
        0x3000,
    ];
    let n = c as u32;
    assert(codes[0] == 0x9 && codes[1] == 0xa && codes[2] == 0xb && codes[3] == 0xc && codes[4]
        == 0xd && codes[5] == 0x20 && codes[6] == 0x85 && codes[7] == 0xa0 && codes[8] == 0x1680);
    assert(codes[9] == 0x2000 && codes[10] == 0x2001 && codes[11] == 0x2002 && codes[12] == 0x2003
        && codes[13] == 0x2004 && codes[14] == 0x2005 && codes[15] == 0x2006 && codes[16] == 0x2007
        && codes[17] == 0x2008 && codes[18] == 0x2009 && codes[19] == 0x200a);
    assert(codes[20] == 0x2028 && codes[21] == 0x2029 && codes[22] == 0x202f && codes[23] == 0x205f
        && codes[24] == 0x3000);
    if codes.contains(n) {
        let i = choose|i: int| 0 <= i < codes.len() && codes[i] == n;
        assert(0 <= i < 25);
    }
}

/// Whether `s` is made of white space.
pub open spec fn is_blank(s: Seq<char>) -> bool {
    forall|i: int| 0 <= i < s.len() ==> is_space(#[trigger] s[i])
}

/// Whether `s` neither begins nor ends with white space.
pub open spec fn has_bare_ends(s: Seq<char>) -> bool {
    s.len() > 0 ==> !is_space(s.first()) && !is_space(s.last())
}

/// White space put around a text that has none at its ends is what trimming takes away.
pub proof fn law_trimming_takes_the_space_around(
    before: Seq<char>,
    core: Seq<char>,
    after: Seq<char>,
)
    requires
        is_blank(before),
        has_bare_ends(core),
        is_blank(after),
    ensures
        trimmed(before + core + after) == core,
{
    let s = before + core + after;
    if core.len() == 0 {
        assert forall|i: int| 0 <= i < s.len() implies is_space(#[trigger] s[i]) by {
            if i < before.len() {
                assert(s[i] == before[i]);
            } else {
                assert(s[i] == after[i - before.len()]);
            }
        }
        lemma_trim_start(s, s.len() as int);
        assert(trimmed(s) =~= core);
    } else {
        let k = before.len() as int;
        assert forall|i: int| 0 <= i < k implies is_space(#[trigger] s[i]) by {
            assert(s[i] == before[i]);
        }
        assert(s[k] == core[0]);
        lemma_trim_start(s, k);
        let t = core + after;
        assert(s.skip(k) =~= t);
        let n = core.len() as int;
        assert forall|i: int| n <= i < t.len() implies is_space(#[trigger] t[i]) by {
            assert(t[i] == after[i - n]);
        }
        assert(t[n - 1] == core.last());
        lemma_trim_end(t, n);
        assert(t.take(n) =~= core);
    }
}

/// A text is its trimmed self with white space around it.
pub proof fn law_trimmed_text_is_the_core(s: Seq<char>) -> (around: (Seq<char>, Seq<char>))
    ensures
        s == around.0 + trimmed(s) + around.1,
        is_blank(around.0),
        has_bare_ends(trimmed(s)),
        is_blank(around.1),
{
    lemma_trimmed_ends(s);
    let before = lemma_trim_start_takes(s);
    let after = lemma_trim_end_takes(trim_start(s));
    assert(s =~= before + trimmed(s) + after);
    (before, after)
}

proof fn lemma_trim_start_takes(s: Seq<char>) -> (before: Seq<char>)
    ensures
        s == before + trim_start(s),
        is_blank(before),
    decreases s.len(),
{
    if s.len() > 0 && is_space(s.first()) {
        let rest = lemma_trim_start_takes(s.drop_first());
        let before = seq![s.first()] + rest;
        let t = trim_start(s.drop_first());
        assert(before + t =~= seq![s.first()] + (rest + t));
        assert(s =~= seq![s.first()] + s.drop_first());
        before
    } else {
        assert(s =~= Seq::<char>::empty() + s);
        seq![]
    }
}

proof fn lemma_trim_end_takes(s: Seq<char>) -> (after: Seq<char>)
    ensures
        s == trim_end(s) + after,
        is_blank(after),
    decreases s.len(),
{
    if s.len() > 0 && is_space(s.last()) {
        let rest = lemma_trim_end_takes(s.drop_last());
        let after = rest.push(s.last());
        let t = trim_end(s.drop_last());
        assert(t + after =~= (t + rest).push(s.last()));
        assert(s =~= s.drop_last().push(s.last()));
        after
    } else {
        assert(s =~= s + Seq::<char>::empty());
        seq![]
    }
}

} // verus!
