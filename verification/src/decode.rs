//! Response decoder: the line/field grammar of a reply payload.
//!
//! A payload is a newline-delimited text block.  The first line is an info
//! string of the shape `\key\value\key\value` (an optional trailing
//! backslash is tolerated).  Every further non-empty line is one player
//! record: a decimal score (optionally negative), a decimal ping, and a
//! quoted name, separated by whitespace, with trailing whitespace
//! tolerated.  Numeric fields are limited to nine digits; longer ones are
//! rejected as decode errors.

use vstd::prelude::*;

use crate::codec::{copy_range, find_byte, NEWLINE};
use crate::error::Error;
use crate::response::{
    players_views, views_of, views_pairs, CommonResponse, Player, PlayerModel, Response,
    ResponseModel,
};

verus! {

pub const BACKSLASH: u8 = 0x5c;
pub const QUOTE: u8 = 0x22;
pub const HYPHEN: u8 = 0x2d;

pub open spec fn is_digit(b: u8) -> bool {
    0x30 <= b <= 0x39
}

pub open spec fn is_space(b: u8) -> bool {
    b == 0x20 || b == 0x09 || b == 0x0d
}

fn is_digit_x(b: u8) -> (r: bool)
    ensures
        r == is_digit(b),
{
    0x30 <= b && b <= 0x39
}

fn is_space_x(b: u8) -> (r: bool)
    ensures
        r == is_space(b),
{
    b == 0x20 || b == 0x09 || b == 0x0d
}

/// First index at or after `i` whose byte is not whitespace.
pub open spec fn skip_ws_from(s: Seq<u8>, i: int) -> int
    decreases s.len() - i,
{
    if 0 <= i < s.len() && is_space(s[i]) {
        skip_ws_from(s, i + 1)
    } else {
        i
    }
}

/// First index at or after `i` whose byte is not a decimal digit.
pub open spec fn digits_end(s: Seq<u8>, i: int) -> int
    decreases s.len() - i,
{
    if 0 <= i < s.len() && is_digit(s[i]) {
        digits_end(s, i + 1)
    } else {
        i
    }
}

/// Every byte of `s[i..j]` is a decimal digit.
pub open spec fn all_digits(s: Seq<u8>, i: int, j: int) -> bool {
    forall|k: int| i <= k < j ==> is_digit(#[trigger] s[k])
}

/// Decimal value of the digit run `s[i..j]`.
pub open spec fn digits_val(s: Seq<u8>, i: int, j: int) -> int
    decreases j - i,
{
    if j <= i {
        0
    } else {
        digits_val(s, i, j - 1) * 10 + (s[j - 1] - 0x30)
    }
}

pub open spec fn pow10(k: nat) -> int
    decreases k,
{
    if k == 0 {
        1
    } else {
        10 * pow10((k - 1) as nat)
    }
}

proof fn lemma_pow10_pos(k: nat)
    ensures
        pow10(k) >= 1,
    decreases k,
{
    if k > 0 {
        lemma_pow10_pos((k - 1) as nat);
    }
}

pub proof fn lemma_pow10_le(a: nat, b: nat)
    requires
        a <= b,
    ensures
        pow10(a) <= pow10(b),
    decreases b,
{
    if a < b {
        lemma_pow10_le(a, (b - 1) as nat);
        lemma_pow10_pos((b - 1) as nat);
    }
}

pub proof fn lemma_pow10_vals()
    ensures
        pow10(8) == 100000000,
        pow10(9) == 1000000000,
{
    assert(pow10(0) == 1);
    assert(pow10(1) == 10);
    assert(pow10(2) == 100);
    assert(pow10(3) == 1000);
    assert(pow10(4) == 10000);
    assert(pow10(5) == 100000);
    assert(pow10(6) == 1000000);
    assert(pow10(7) == 10000000);
    assert(pow10(8) == 100000000);
    assert(pow10(9) == 1000000000);
}

pub proof fn lemma_digits_val_bound(s: Seq<u8>, i: int, j: int)
    requires
        i <= j,
        all_digits(s, i, j),
    ensures
        0 <= digits_val(s, i, j) < pow10((j - i) as nat),
    decreases j - i,
{
    if j <= i {
    } else {
        lemma_digits_val_bound(s, i, j - 1);
        assert(is_digit(s[j - 1]));
        assert(pow10((j - i) as nat) == 10 * pow10((j - i - 1) as nat));
    }
}

/// The digit run found by `digits_end` really is all digits.
pub proof fn lemma_digits_end_props(s: Seq<u8>, i: int)
    requires
        0 <= i <= s.len(),
    ensures
        i <= digits_end(s, i) <= s.len(),
        all_digits(s, i, digits_end(s, i)),
    decreases s.len() - i,
{
    if i < s.len() && is_digit(s[i]) {
        lemma_digits_end_props(s, i + 1);
        assert forall|k: int| i <= k < digits_end(s, i) implies is_digit(#[trigger] s[k]) by {
            if k != i {
                assert(all_digits(s, i + 1, digits_end(s, i + 1)));
            }
        }
    }
}

/// First non-whitespace index, as executable code.
pub fn skip_ws(s: &Vec<u8>, from: usize) -> (r: usize)
    requires
        from <= s.len(),
    ensures
        r as int == skip_ws_from(s@, from as int),
        from <= r <= s.len(),
{
    let mut i: usize = from;
    while i < s.len() && is_space_x(s[i])
        invariant
            from <= i <= s.len(),
            skip_ws_from(s@, from as int) == skip_ws_from(s@, i as int),
        decreases s.len() - i,
    {
        i = i + 1;
    }
    assert(skip_ws_from(s@, i as int) == i as int);
    i
}

/// End of the digit run starting at `from`, as executable code.
pub fn scan_digits(s: &Vec<u8>, from: usize) -> (r: usize)
    requires
        from <= s.len(),
    ensures
        r as int == digits_end(s@, from as int),
        from <= r <= s.len(),
{
    let mut i: usize = from;
    while i < s.len() && is_digit_x(s[i])
        invariant
            from <= i <= s.len(),
            digits_end(s@, from as int) == digits_end(s@, i as int),
        decreases s.len() - i,
    {
        i = i + 1;
    }
    assert(digits_end(s@, i as int) == i as int);
    i
}

/// First occurrence of `d` at or after `from`, as executable code.
pub fn find_byte_from(s: &Vec<u8>, d: u8, from: usize) -> (r: usize)
    requires
        from <= s.len(),
    ensures
        r as int == find_byte(s@, d, from as int),
        from <= r <= s.len(),
{
    let mut i: usize = from;
    while i < s.len() && s[i] != d
        invariant
            from <= i <= s.len(),
            find_byte(s@, d, from as int) == find_byte(s@, d, i as int),
        decreases s.len() - i,
    {
        i = i + 1;
    }
    assert(find_byte(s@, d, i as int) == i as int);
    i
}

/// Decimal value of a digit run of at most nine digits.
pub fn parse_digits(s: &Vec<u8>, from: usize, to: usize) -> (r: u32)
    requires
        from <= to <= s.len(),
        to - from <= 9,
        all_digits(s@, from as int, to as int),
    ensures
        r as int == digits_val(s@, from as int, to as int),
        r < 1000000000,
{
    proof {
        lemma_pow10_vals();
    }
    let mut acc: u32 = 0;
    let mut i: usize = from;
    while i < to
        invariant
            from <= i <= to <= s.len(),
            to - from <= 9,
            all_digits(s@, from as int, to as int),
            acc as int == digits_val(s@, from as int, i as int),
        decreases to - i,
    {
        proof {
            lemma_digits_val_bound(s@, from as int, i as int);
            lemma_pow10_le((i - from) as nat, 8);
            lemma_pow10_vals();
            assert(is_digit(s@[i as int]));
        }
        let d = s[i] - 0x30;
        acc = acc * 10 + d as u32;
        i = i + 1;
    }
    proof {
        lemma_digits_val_bound(s@, from as int, to as int);
        lemma_pow10_le((to - from) as nat, 9);
        lemma_pow10_vals();
    }
    acc
}

/// Parse of one player line: score, ping, and a quoted name, whitespace
/// separated, with trailing whitespace tolerated.  `None` is a decode
/// error.
pub open spec fn player_line_parse(line: Seq<u8>) -> Option<PlayerModel> {
    let i0 = skip_ws_from(line, 0);
    let neg = i0 < line.len() && line[i0] == HYPHEN;
    let i1: int = if neg { i0 + 1 } else { i0 };
    let j1 = digits_end(line, i1);
    if j1 == i1 || j1 - i1 > 9 {
        None
    } else {
        let sval = digits_val(line, i1, j1);
        let score: int = if neg { -sval } else { sval };
        let i2 = skip_ws_from(line, j1);
        let j2 = digits_end(line, i2);
        if j2 == i2 || j2 - i2 > 9 {
            None
        } else {
            let ping = digits_val(line, i2, j2);
            let i3 = skip_ws_from(line, j2);
            if i3 >= line.len() || line[i3] != QUOTE {
                None
            } else {
                let q = find_byte(line, QUOTE, i3 + 1);
                if q >= line.len() {
                    None
                } else {
                    let i4 = skip_ws_from(line, q + 1);
                    if i4 != line.len() {
                        None
                    } else {
                        Some(PlayerModel { score: score, ping: ping, name: line.subrange(i3 + 1, q) })
                    }
                }
            }
        }
    }
}

/// Parse one player line.  A line with fewer fields than score, ping and
/// quoted name is a decode error; extra trailing whitespace is tolerated.
pub fn parse_player_line(line: &Vec<u8>) -> (r: Result<Player, Error>)
    ensures
        player_line_parse(line@) is Some ==> r is Ok && r->Ok_0@ == player_line_parse(
            line@,
        )->Some_0,
        player_line_parse(line@) is None ==> r == Err::<Player, Error>(Error::Decode),
{
    let n = line.len();
    let i0 = skip_ws(line, 0);
    let neg = i0 < n && line[i0] == HYPHEN;
    let i1 = if neg {
        i0 + 1
    } else {
        i0
    };
    let j1 = scan_digits(line, i1);
    if j1 == i1 || j1 - i1 > 9 {
        return Err(Error::Decode);
    }
    proof {
        lemma_digits_end_props(line@, i1 as int);
        lemma_digits_val_bound(line@, i1 as int, j1 as int);
        lemma_pow10_le((j1 - i1) as nat, 9);
        lemma_pow10_vals();
    }
    let sval = parse_digits(line, i1, j1);
    let score: i32 = if neg {
        -(sval as i32)
    } else {
        sval as i32
    };
    let i2 = skip_ws(line, j1);
    let j2 = scan_digits(line, i2);
    if j2 == i2 || j2 - i2 > 9 {
        return Err(Error::Decode);
    }
    proof {
        lemma_digits_end_props(line@, i2 as int);
    }
    let ping = parse_digits(line, i2, j2);
    let i3 = skip_ws(line, j2);
    if i3 >= n || line[i3] != QUOTE {
        return Err(Error::Decode);
    }
    let q = find_byte_from(line, QUOTE, i3 + 1);
    if q >= n {
        return Err(Error::Decode);
    }
    let i4 = skip_ws(line, q + 1);
    if i4 != n {
        return Err(Error::Decode);
    }
    let name = copy_range(line, i3 + 1, q);
    Ok(Player { score, ping, name })
}

/// A player line that never opens a quoted name — fewer fields than the
/// record requires — always fails to parse: a decode error, never a
/// panic or a partial record.
pub proof fn lemma_player_line_needs_name(line: Seq<u8>)
    requires
        !line.contains(QUOTE),
    ensures
        player_line_parse(line) is None,
{
    assert forall|j: int| 0 <= j < line.len() implies line[j] != QUOTE by {
        if line[j] == QUOTE {
            assert(line.contains(QUOTE));
        }
    }
    lemma_skip_ws_props(line, 0);
    let i0 = skip_ws_from(line, 0);
    let neg = i0 < line.len() && line[i0] == HYPHEN;
    let i1: int = if neg {
        i0 + 1
    } else {
        i0
    };
    lemma_digits_end_props(line, i1);
    let j1 = digits_end(line, i1);
    lemma_skip_ws_props(line, j1);
    let i2 = skip_ws_from(line, j1);
    lemma_digits_end_props(line, i2);
    let j2 = digits_end(line, i2);
    lemma_skip_ws_props(line, j2);
}

proof fn lemma_skip_ws_push(s: Seq<u8>, c: u8, i: int)
    requires
        0 <= i <= s.len(),
        is_space(c),
    ensures
        skip_ws_from(s.push(c), i) == if skip_ws_from(s, i) == s.len() {
            s.len() + 1 as int
        } else {
            skip_ws_from(s, i)
        },
    decreases s.len() - i,
{
    if i < s.len() {
        assert(s.push(c)[i] == s[i]);
        if is_space(s[i]) {
            lemma_skip_ws_push(s, c, i + 1);
        }
    } else {
        assert(s.push(c)[i] == c);
        assert(skip_ws_from(s.push(c), i + 1) == i + 1);
    }
}

proof fn lemma_digits_end_push(s: Seq<u8>, c: u8, i: int)
    requires
        0 <= i <= s.len(),
        !is_digit(c),
    ensures
        digits_end(s.push(c), i) == digits_end(s, i),
    decreases s.len() - i,
{
    if i < s.len() {
        assert(s.push(c)[i] == s[i]);
        if is_digit(s[i]) {
            lemma_digits_end_push(s, c, i + 1);
        }
    } else {
        assert(s.push(c)[i] == c);
    }
}

proof fn lemma_find_byte_push(s: Seq<u8>, c: u8, d: u8, i: int)
    requires
        0 <= i <= s.len(),
        find_byte(s, d, i) < s.len(),
    ensures
        find_byte(s.push(c), d, i) == find_byte(s, d, i),
    decreases s.len() - i,
{
    assert(s.push(c)[i] == s[i]);
    if s[i] != d {
        lemma_find_byte_push(s, c, d, i + 1);
    }
}

proof fn lemma_digits_val_push(s: Seq<u8>, c: u8, i: int, j: int)
    requires
        0 <= i,
        j <= s.len(),
    ensures
        digits_val(s.push(c), i, j) == digits_val(s, i, j),
    decreases j - i,
{
    if j > i {
        assert(s.push(c)[j - 1] == s[j - 1]);
        lemma_digits_val_push(s, c, i, j - 1);
    }
}

proof fn lemma_skip_ws_props(s: Seq<u8>, i: int)
    requires
        0 <= i <= s.len(),
    ensures
        i <= skip_ws_from(s, i) <= s.len(),
    decreases s.len() - i,
{
    if i < s.len() && is_space(s[i]) {
        lemma_skip_ws_props(s, i + 1);
    }
}

proof fn lemma_trailing_space_byte(line: Seq<u8>, c: u8)
    requires
        is_space(c),
        player_line_parse(line) is Some,
    ensures
        player_line_parse(line.push(c)) == player_line_parse(line),
{
    let t = line.push(c);
    let i0 = skip_ws_from(line, 0);
    lemma_skip_ws_props(line, 0);
    let neg = i0 < line.len() && line[i0] == HYPHEN;
    let i1: int = if neg { i0 + 1 } else { i0 };
    let j1 = digits_end(line, i1);
    assert(j1 != i1);
    lemma_digits_end_props(line, i1);
    assert(i0 < line.len());
    assert(t[i0] == line[i0]);
    lemma_skip_ws_push(line, c, 0);
    lemma_digits_end_push(line, c, i1);
    lemma_digits_val_push(line, c, i1, j1);
    let i2 = skip_ws_from(line, j1);
    lemma_skip_ws_props(line, j1);
    let j2 = digits_end(line, i2);
    assert(j2 != i2);
    lemma_digits_end_props(line, i2);
    lemma_skip_ws_push(line, c, j1);
    assert(i2 < line.len());
    lemma_digits_end_push(line, c, i2);
    lemma_digits_val_push(line, c, i2, j2);
    let i3 = skip_ws_from(line, j2);
    lemma_skip_ws_props(line, j2);
    lemma_skip_ws_push(line, c, j2);
    assert(i3 < line.len() && line[i3] == QUOTE);
    assert(t[i3] == line[i3]);
    let q = find_byte(line, QUOTE, i3 + 1);
    assert(q < line.len());
    lemma_find_byte_props(line, QUOTE, i3 + 1);
    lemma_find_byte_push(line, c, QUOTE, i3 + 1);
    let i4 = skip_ws_from(line, q + 1);
    assert(i4 == line.len());
    lemma_skip_ws_push(line, c, q + 1);
    assert(skip_ws_from(t, q + 1) == t.len());
    assert forall|idx: int| i3 + 1 <= idx < q implies t[idx] == line[idx] by {}
    assert(t.subrange(i3 + 1, q) =~= line.subrange(i3 + 1, q));
}

proof fn lemma_find_byte_props(s: Seq<u8>, d: u8, i: int)
    requires
        0 <= i <= s.len(),
    ensures
        i <= find_byte(s, d, i) <= s.len(),
    decreases s.len() - i,
{
    if i < s.len() && s[i] != d {
        lemma_find_byte_props(s, d, i + 1);
    }
}

/// Extra trailing whitespace never changes what a player line decodes
/// to: a line that parses still parses, to the identical record, with
/// any run of whitespace appended.
pub proof fn lemma_trailing_whitespace_tolerated(line: Seq<u8>, ext: Seq<u8>)
    requires
        forall|k: int| 0 <= k < ext.len() ==> is_space(#[trigger] ext[k]),
        player_line_parse(line) is Some,
    ensures
        player_line_parse(line + ext) == player_line_parse(line),
    decreases ext.len(),
{
    if ext.len() == 0 {
        assert(line + ext =~= line);
    } else {
        lemma_trailing_space_byte(line, ext[0]);
        assert(line.push(ext[0]) =~= line + seq![ext[0]]);
        lemma_trailing_whitespace_tolerated(line.push(ext[0]), ext.skip(1));
        assert(line.push(ext[0]) + ext.skip(1) =~= line + ext);
    }
}

/// Byte vector equality.
pub fn bytes_eq(a: &Vec<u8>, b: &Vec<u8>) -> (r: bool)
    ensures
        r == (a@ == b@),
{
    if a.len() != b.len() {
        return false;
    }
    let mut i: usize = 0;
    while i < a.len()
        invariant
            a@.len() == b@.len(),
            i <= a.len(),
            forall|k: int| 0 <= k < i ==> a@[k] == b@[k],
        decreases a.len() - i,
    {
        if a[i] != b[i] {
            return false;
        }
        i = i + 1;
    }
    proof {
        assert(a@ =~= b@);
    }
    true
}

/// Copy of a byte vector.
pub fn clone_bytes(v: &Vec<u8>) -> (r: Vec<u8>)
    ensures
        r@ == v@,
{
    let r = copy_range(v, 0, v.len());
    proof {
        assert(v@.subrange(0, v@.len() as int) =~= v@);
    }
    r
}

/// `ss` with `pre` prepended to its first element.
pub open spec fn prepend_first(ss: Seq<Seq<u8>>, pre: Seq<u8>) -> Seq<Seq<u8>> {
    if ss.len() == 0 {
        seq![pre]
    } else {
        seq![pre + ss[0]] + ss.skip(1)
    }
}

/// Split of `s` on the delimiter `d`: always one more segment than there
/// are delimiters, empty segments included.
pub open spec fn split_on(s: Seq<u8>, d: u8) -> Seq<Seq<u8>>
    decreases s.len(),
{
    if s.len() == 0 {
        seq![Seq::<u8>::empty()]
    } else if s[0] == d {
        seq![Seq::<u8>::empty()] + split_on(s.skip(1), d)
    } else {
        prepend_first(split_on(s.skip(1), d), seq![s[0]])
    }
}

proof fn lemma_split_on_nonempty(s: Seq<u8>, d: u8)
    ensures
        split_on(s, d).len() >= 1,
    decreases s.len(),
{
    if s.len() != 0 {
        lemma_split_on_nonempty(s.skip(1), d);
    }
}

proof fn lemma_prepend_first_empty(ss: Seq<Seq<u8>>)
    requires
        ss.len() >= 1,
    ensures
        prepend_first(ss, Seq::<u8>::empty()) == ss,
{
    assert(prepend_first(ss, Seq::<u8>::empty()) =~~= ss);
}

/// Split a byte vector on a delimiter.
pub fn split_bytes(s: &Vec<u8>, d: u8) -> (r: Vec<Vec<u8>>)
    ensures
        views_of(r@) == split_on(s@, d),
        r@.len() >= 1,
{
    let mut segs: Vec<Vec<u8>> = Vec::new();
    let mut cur: Vec<u8> = Vec::new();
    let mut i: usize = 0;
    proof {
        lemma_split_on_nonempty(s@, d);
        lemma_prepend_first_empty(split_on(s@, d));
        assert(s@.skip(0) =~= s@);
        assert(views_of(segs@) + prepend_first(split_on(s@.skip(0), d), cur@) =~~= split_on(
            s@,
            d,
        ));
    }
    while i < s.len()
        invariant
            i <= s.len(),
            split_on(s@, d) == views_of(segs@) + prepend_first(
                split_on(s@.skip(i as int), d),
                cur@,
            ),
        decreases s.len() - i,
    {
        let ghost pre = s@.skip(i as int);
        proof {
            assert(pre.len() > 0);
            assert(pre[0] == s@[i as int]);
            assert(pre.skip(1) =~= s@.skip(i as int + 1));
            lemma_split_on_nonempty(s@.skip(i as int + 1), d);
        }
        if s[i] == d {
            let ghost old_segs = segs@;
            let ghost cur_v = cur@;
            segs.push(cur);
            cur = Vec::new();
            proof {
                assert(views_of(segs@) == views_of(old_segs).push(cur_v)) by {
                    assert(views_of(segs@) =~~= views_of(old_segs).push(cur_v));
                }
                let x = split_on(s@.skip(i as int + 1), d);
                assert(split_on(pre, d) == seq![Seq::<u8>::empty()] + x);
                assert(prepend_first(seq![Seq::<u8>::empty()] + x, cur_v) =~~= seq![cur_v] + x);
                lemma_prepend_first_empty(x);
                assert(views_of(old_segs).push(cur_v) + prepend_first(x, Seq::<u8>::empty())
                    =~~= views_of(old_segs) + (seq![cur_v] + x));
            }
        } else {
            let ghost cur_v = cur@;
            cur.push(s[i]);
            proof {
                let y = split_on(s@.skip(i as int + 1), d);
                assert(split_on(pre, d) == prepend_first(y, seq![s@[i as int]]));
                assert(cur@ =~= cur_v + seq![s@[i as int]]);
                assert(prepend_first(prepend_first(y, seq![s@[i as int]]), cur_v) =~~= prepend_first(
                    y,
                    cur_v + seq![s@[i as int]],
                ));
            }
        }
        i = i + 1;
    }
    let ghost old_segs = segs@;
    let ghost cur_v = cur@;
    segs.push(cur);
    proof {
        assert(s@.skip(i as int) =~= Seq::<u8>::empty());
        assert(split_on(Seq::<u8>::empty(), d) == seq![Seq::<u8>::empty()]);
        assert(prepend_first(seq![Seq::<u8>::empty()], cur_v) =~~= seq![cur_v]);
        assert(views_of(segs@) =~~= views_of(old_segs).push(cur_v));
        assert(views_of(old_segs) + seq![cur_v] =~~= views_of(old_segs).push(cur_v));
        assert(views_of(segs@) =~~= split_on(s@, d));
    }
    segs
}

/// Pair the segments of an info line into key/value pairs.  A single
/// trailing empty segment (a trailing backslash) is tolerated; a dangling
/// non-empty key is a decode error.
pub open spec fn pair_up(segs: Seq<Seq<u8>>) -> Option<Seq<(Seq<u8>, Seq<u8>)>>
    decreases segs.len(),
{
    if segs.len() == 0 {
        Some(Seq::empty())
    } else if segs.len() == 1 {
        if segs[0].len() == 0 {
            Some(Seq::empty())
        } else {
            None
        }
    } else {
        match pair_up(segs.skip(2)) {
            None => None,
            Some(rest) => Some(seq![(segs[0], segs[1])] + rest),
        }
    }
}

/// Parse of the info line: it must be empty or start with a backslash,
/// followed by alternating keys and values.  `None` is a decode error.
pub open spec fn info_pairs(line: Seq<u8>) -> Option<Seq<(Seq<u8>, Seq<u8>)>> {
    if line.len() == 0 {
        Some(Seq::empty())
    } else if line[0] != BACKSLASH {
        None
    } else {
        pair_up(split_on(line.skip(1), BACKSLASH))
    }
}

/// Parse the info line into its key/value pairs, in order of appearance.
pub fn parse_info(line: &Vec<u8>) -> (r: Result<Vec<(Vec<u8>, Vec<u8>)>, Error>)
    ensures
        info_pairs(line@) is Some ==> r is Ok && views_pairs(r->Ok_0@) == info_pairs(
            line@,
        )->Some_0,
        info_pairs(line@) is None ==> r == Err::<Vec<(Vec<u8>, Vec<u8>)>, Error>(Error::Decode),
{
    if line.len() == 0 {
        let empty: Vec<(Vec<u8>, Vec<u8>)> = Vec::new();
        proof {
            assert(views_pairs(empty@) =~~= Seq::<(Seq<u8>, Seq<u8>)>::empty());
        }
        return Ok(empty);
    }
    if line[0] != BACKSLASH {
        return Err(Error::Decode);
    }
    let rest = copy_range(line, 1, line.len());
    proof {
        assert(rest@ =~= line@.skip(1));
    }
    let segs = split_bytes(&rest, BACKSLASH);
    let ghost ss = split_on(line@.skip(1), BACKSLASH);
    let mut pairs: Vec<(Vec<u8>, Vec<u8>)> = Vec::new();
    let mut i: usize = 0;
    proof {
        assert(ss.skip(0) =~~= ss);
        assert(views_pairs(pairs@) + pair_up(ss)->Some_0 =~~= pair_up(ss)->Some_0);
    }
    while segs.len() - i >= 2
        invariant
            i <= segs.len(),
            views_of(segs@) == ss,
            pair_up(ss) is Some <==> pair_up(ss.skip(i as int)) is Some,
            pair_up(ss) is Some ==> pair_up(ss)->Some_0 == views_pairs(pairs@) + pair_up(
                ss.skip(i as int),
            )->Some_0,
        decreases segs.len() - i,
    {
        let k = clone_bytes(&segs[i]);
        let v = clone_bytes(&segs[i + 1]);
        let ghost old_pairs = pairs@;
        pairs.push((k, v));
        proof {
            assert(ss.len() == segs@.len());
            assert(ss[i as int] == segs@[i as int]@);
            assert(ss[i as int + 1] == segs@[i as int + 1]@);
            let tail = ss.skip(i as int);
            assert(tail.len() >= 2);
            assert(tail[0] == ss[i as int]);
            assert(tail[1] == ss[i as int + 1]);
            assert(tail.skip(2) =~~= ss.skip(i as int + 2));
            assert(views_pairs(pairs@) =~~= views_pairs(old_pairs).push((k@, v@)));
            if pair_up(ss) is Some {
                assert(views_pairs(old_pairs).push((k@, v@)) + pair_up(ss.skip(i as int + 2))->Some_0
                    =~~= views_pairs(old_pairs) + (seq![(tail[0], tail[1])] + pair_up(
                    tail.skip(2),
                )->Some_0));
            }
        }
        i = i + 2;
    }
    if i < segs.len() {
        proof {
            let tail = ss.skip(i as int);
            assert(tail.len() == 1);
            assert(tail[0] == ss[i as int]);
            assert(ss[i as int] == segs@[i as int]@);
        }
        if segs[i].len() != 0 {
            return Err(Error::Decode);
        }
    } else {
        proof {
            assert(ss.skip(i as int) =~~= Seq::<Seq<u8>>::empty());
        }
    }
    proof {
        assert(pair_up(ss.skip(i as int)) is Some);
        assert(pair_up(ss.skip(i as int))->Some_0 =~~= Seq::<(Seq<u8>, Seq<u8>)>::empty());
        if pair_up(ss) is Some {
            assert(pair_up(ss)->Some_0 =~~= views_pairs(pairs@));
        }
    }
    Ok(pairs)
}

/// First value stored under `key`, searching the pairs in order.
pub open spec fn lookup(pairs: Seq<(Seq<u8>, Seq<u8>)>, key: Seq<u8>) -> Option<Seq<u8>>
    decreases pairs.len(),
{
    if pairs.len() == 0 {
        None
    } else if pairs[0].0 == key {
        Some(pairs[0].1)
    } else {
        lookup(pairs.skip(1), key)
    }
}

/// Look a key up in the decoded info pairs.
pub fn lookup_value(info: &Vec<(Vec<u8>, Vec<u8>)>, key: &Vec<u8>) -> (r: Option<Vec<u8>>)
    ensures
        lookup(views_pairs(info@), key@) is Some ==> r is Some && r->Some_0@ == lookup(
            views_pairs(info@),
            key@,
        )->Some_0,
        lookup(views_pairs(info@), key@) is None ==> r is None,
{
    let ghost ps = views_pairs(info@);
    let mut i: usize = 0;
    proof {
        assert(ps.skip(0) =~~= ps);
    }
    while i < info.len()
        invariant
            i <= info.len(),
            ps == views_pairs(info@),
            lookup(ps, key@) == lookup(ps.skip(i as int), key@),
        decreases info.len() - i,
    {
        proof {
            assert(ps.skip(i as int)[0] == ps[i as int]);
            assert(ps[i as int] == (info@[i as int].0@, info@[i as int].1@));
        }
        if bytes_eq(&info[i].0, key) {
            return Some(clone_bytes(&info[i].1));
        }
        proof {
            assert(ps.skip(i as int).skip(1) =~~= ps.skip(i as int + 1));
        }
        i = i + 1;
    }
    proof {
        assert(ps.skip(i as int) =~~= Seq::<(Seq<u8>, Seq<u8>)>::empty());
    }
    None
}

/// Parse of a declared-count value: one to nine decimal digits.
pub open spec fn parse_count(v: Seq<u8>) -> Option<int> {
    if 1 <= v.len() <= 9 && all_digits(v, 0, v.len() as int) {
        Some(digits_val(v, 0, v.len() as int))
    } else {
        None
    }
}

/// Parse a declared-count value.
pub fn parse_count_x(v: &Vec<u8>) -> (r: Option<u32>)
    ensures
        parse_count(v@) is Some ==> r is Some && r->Some_0 as int == parse_count(v@)->Some_0,
        parse_count(v@) is None ==> r is None,
{
    if v.len() < 1 || v.len() > 9 {
        return None;
    }
    let mut i: usize = 0;
    while i < v.len()
        invariant
            i <= v.len(),
            all_digits(v@, 0, i as int),
        decreases v.len() - i,
    {
        if !is_digit_x(v[i]) {
            return None;
        }
        i = i + 1;
    }
    Some(parse_digits(v, 0, v.len()))
}

/// Parse of the player lines: empty lines are skipped, every other line
/// must be a well-formed player record.  `None` is a decode error.
pub open spec fn players_of(ls: Seq<Seq<u8>>) -> Option<Seq<PlayerModel>>
    decreases ls.len(),
{
    if ls.len() == 0 {
        Some(Seq::empty())
    } else if ls[0].len() == 0 {
        players_of(ls.skip(1))
    } else {
        match player_line_parse(ls[0]) {
            None => None,
            Some(p) => match players_of(ls.skip(1)) {
                None => None,
                Some(rest) => Some(seq![p] + rest),
            },
        }
    }
}

pub open spec fn key_players() -> Seq<u8> {
    seq![0x70u8, 0x6cu8, 0x61u8, 0x79u8, 0x65u8, 0x72u8, 0x73u8]
}

pub open spec fn key_hostname() -> Seq<u8> {
    seq![0x68u8, 0x6fu8, 0x73u8, 0x74u8, 0x6eu8, 0x61u8, 0x6du8, 0x65u8]
}

pub open spec fn key_mapname() -> Seq<u8> {
    seq![0x6du8, 0x61u8, 0x70u8, 0x6eu8, 0x61u8, 0x6du8, 0x65u8]
}

pub open spec fn key_maxclients() -> Seq<u8> {
    seq![0x6du8, 0x61u8, 0x78u8, 0x63u8, 0x6cu8, 0x69u8, 0x65u8, 0x6eu8, 0x74u8, 0x73u8]
}

pub fn players_key() -> (r: Vec<u8>)
    ensures
        r@ == key_players(),
{
    let mut v: Vec<u8> = Vec::new();
    v.push(0x70u8);
    v.push(0x6cu8);
    v.push(0x61u8);
    v.push(0x79u8);
    v.push(0x65u8);
    v.push(0x72u8);
    v.push(0x73u8);
    proof {
        assert(v@ =~= key_players());
    }
    v
}

pub fn hostname_key() -> (r: Vec<u8>)
    ensures
        r@ == key_hostname(),
{
    let mut v: Vec<u8> = Vec::new();
    v.push(0x68u8);
    v.push(0x6fu8);
    v.push(0x73u8);
    v.push(0x74u8);
    v.push(0x6eu8);
    v.push(0x61u8);
    v.push(0x6du8);
    v.push(0x65u8);
    proof {
        assert(v@ =~= key_hostname());
    }
    v
}

pub fn mapname_key() -> (r: Vec<u8>)
    ensures
        r@ == key_mapname(),
{
    let mut v: Vec<u8> = Vec::new();
    v.push(0x6du8);
    v.push(0x61u8);
    v.push(0x70u8);
    v.push(0x6eu8);
    v.push(0x61u8);
    v.push(0x6du8);
    v.push(0x65u8);
    proof {
        assert(v@ =~= key_mapname());
    }
    v
}

pub fn maxclients_key() -> (r: Vec<u8>)
    ensures
        r@ == key_maxclients(),
{
    let mut v: Vec<u8> = Vec::new();
    v.push(0x6du8);
    v.push(0x61u8);
    v.push(0x78u8);
    v.push(0x63u8);
    v.push(0x6cu8);
    v.push(0x69u8);
    v.push(0x65u8);
    v.push(0x6eu8);
    v.push(0x74u8);
    v.push(0x73u8);
    proof {
        assert(v@ =~= key_maxclients());
    }
    v
}

/// The declared player count, when present, must match the parsed one.
pub open spec fn count_consistent(pairs: Seq<(Seq<u8>, Seq<u8>)>, n: int) -> bool {
    match lookup(pairs, key_players()) {
        None => true,
        Some(v) => match parse_count(v) {
            None => false,
            Some(c) => c == n,
        },
    }
}

/// Full parse of a reply payload: info line, player lines, and the
/// declared-count consistency check.  `None` is a decode error.
pub open spec fn decode_spec(p: Seq<u8>) -> Option<ResponseModel> {
    let ls = split_on(p, NEWLINE);
    match info_pairs(ls[0]) {
        None => None,
        Some(pairs) => match players_of(ls.skip(1)) {
            None => None,
            Some(ps) => if count_consistent(pairs, ps.len() as int) {
                Some(ResponseModel { info: pairs, players: ps })
            } else {
                None
            },
        },
    }
}

/// The declared-count policy: when the info line declares a player count
/// that differs from the number of player lines present — fewer lines
/// than declared included — the payload is rejected as a decode error
/// rather than returned partially decoded.
pub proof fn lemma_declared_count_mismatch_rejected(p: Seq<u8>)
    requires
        ({
            let ls = split_on(p, NEWLINE);
            &&& info_pairs(ls[0]) is Some
            &&& players_of(ls.skip(1)) is Some
            &&& !count_consistent(
                info_pairs(ls[0])->Some_0,
                players_of(ls.skip(1))->Some_0.len() as int,
            )
        }),
    ensures
        decode_spec(p) is None,
{
}

/// Decode a reply payload into the protocol-specific response.
///
/// A payload whose info line or player lines violate the grammar, or whose
/// declared player count disagrees with the number of parsed player lines,
/// is rejected as a decode error; a successful result is always fully
/// decoded.
pub fn decode_payload(p: &Vec<u8>) -> (r: Result<Response, Error>)
    ensures
        decode_spec(p@) is Some ==> r is Ok && r->Ok_0@ == decode_spec(p@)->Some_0,
        decode_spec(p@) is None ==> r == Err::<Response, Error>(Error::Decode),
{
    let lines = split_bytes(p, NEWLINE);
    let ghost ls = split_on(p@, NEWLINE);
    proof {
        assert(ls[0] == views_of(lines@)[0]);
        assert(views_of(lines@)[0] == lines@[0]@);
    }
    let info = match parse_info(&lines[0]) {
        Ok(x) => x,
        Err(_) => {
            return Err(Error::Decode);
        },
    };
    let mut players: Vec<Player> = Vec::new();
    let mut i: usize = 1;
    proof {
        assert(players_views(players@) + players_of(ls.skip(1))->Some_0 =~~= players_of(
            ls.skip(1),
        )->Some_0);
    }
    while i < lines.len()
        invariant
            1 <= i <= lines.len(),
            ls == split_on(p@, NEWLINE),
            views_of(lines@) == ls,
            players_of(ls.skip(1)) is Some <==> players_of(ls.skip(i as int)) is Some,
            players_of(ls.skip(1)) is Some ==> players_of(ls.skip(1))->Some_0 == players_views(
                players@,
            ) + players_of(ls.skip(i as int))->Some_0,
        decreases lines.len() - i,
    {
        proof {
            assert(ls.skip(i as int)[0] == ls[i as int]);
            assert(ls[i as int] == lines@[i as int]@);
            assert(ls.skip(i as int).skip(1) =~~= ls.skip(i as int + 1));
        }
        if lines[i].len() > 0 {
            match parse_player_line(&lines[i]) {
                Ok(pl) => {
                    let ghost old_players = players@;
                    let ghost plv = pl@;
                    players.push(pl);
                    proof {
                        assert(players_views(players@) =~~= players_views(old_players).push(plv));
                        if players_of(ls.skip(1)) is Some {
                            assert(players_views(old_players).push(plv) + players_of(
                                ls.skip(i as int + 1),
                            )->Some_0 =~~= players_views(old_players) + (seq![plv] + players_of(
                                ls.skip(i as int + 1),
                            )->Some_0));
                        }
                    }
                },
                Err(_) => {
                    proof {
                        assert(player_line_parse(ls.skip(i as int)[0]) is None);
                        assert(players_of(ls.skip(i as int)) is None);
                    }
                    return Err(Error::Decode);
                },
            }
        }
        i = i + 1;
    }
    proof {
        assert(ls.skip(i as int) =~~= Seq::<Seq<u8>>::empty());
        assert(players_of(ls.skip(i as int)) == Some(Seq::<PlayerModel>::empty()));
        if players_of(ls.skip(1)) is Some {
            assert(players_of(ls.skip(1))->Some_0 =~~= players_views(players@));
        }
    }
    let pk = players_key();
    match lookup_value(&info, &pk) {
        None => {},
        Some(v) => {
            match parse_count_x(&v) {
                Some(c) => {
                    if players.len() as u64 != c as u64 {
                        return Err(Error::Decode);
                    }
                },
                None => {
                    return Err(Error::Decode);
                },
            }
        },
    }
    Ok(Response { info, players })
}

/// Derive the cross-protocol projection from a decoded response.  This is
/// a pure field projection: the server name from the `hostname` key, the
/// map from the `mapname` key, the online count from the parsed player
/// records, and the maximum from the `maxclients` key when it is numeric.
pub fn common_of(r: &Response) -> (c: CommonResponse)
    ensures
        c.players_online == r.players.len(),
        c.name is Some <==> lookup(r@.info, key_hostname()) is Some,
        c.name is Some ==> c.name->Some_0@ == lookup(r@.info, key_hostname())->Some_0,
        c.map is Some <==> lookup(r@.info, key_mapname()) is Some,
        c.map is Some ==> c.map->Some_0@ == lookup(r@.info, key_mapname())->Some_0,
        ({
            let m = lookup(r@.info, key_maxclients());
            &&& (c.players_maximum is Some <==> (m is Some && parse_count(m->Some_0) is Some))
            &&& (c.players_maximum is Some ==> c.players_maximum->Some_0 as int == parse_count(
                m->Some_0,
            )->Some_0)
        }),
{
    let hk = hostname_key();
    let mk = mapname_key();
    let xk = maxclients_key();
    let name = lookup_value(&r.info, &hk);
    let map = lookup_value(&r.info, &mk);
    let players_maximum = match lookup_value(&r.info, &xk) {
        None => None,
        Some(v) => parse_count_x(&v),
    };
    CommonResponse { name, map, players_online: r.players.len(), players_maximum }
}

} // verus!
