//! The self-delimiting record format.
//!
//! Records are JSON objects written in one canonical form: a `Set` becomes
//! `{"Set":{"key":"K","value":"V"}}` and a `Remove` becomes
//! `{"Remove":{"key":"K"}}`, where the quote, the backslash and every
//! control character inside `K` and `V` are written as a `\u00XX` escape
//! and every other character stands for itself. Because the form is
//! canonical, a character stream determines the record sequence that
//! produced it uniquely, which is what recovery from a log relies on.

use vstd::prelude::*;
use crate::command::{Command, CommandView};
use crate::error::KvsError;

verus! {

/// Characters that never appear bare inside an encoded string: the quote
/// would end the string early, the backslash would start an escape, and
/// control characters are kept out so that the output is plain JSON.
pub open spec fn is_escaped_char(c: char) -> bool {
    (c as u32) < 0x20 || c == '"' || c == '\\'
}

/// The lower-case hexadecimal digit for `n` in `0..16`.
pub open spec fn hex_digit(n: int) -> char {
    if n < 10 {
        (0x30 + n) as char
    } else {
        (0x57 + n) as char
    }
}

/// How one character of a key or value is written.
pub open spec fn esc_char(c: char) -> Seq<char> {
    if is_escaped_char(c) {
        seq!['\\', 'u', '0', '0', hex_digit((c as u32) as int / 16), hex_digit((c as u32) as int % 16)]
    } else {
        seq![c]
    }
}

/// How a whole key or value is written, character by character.
pub open spec fn esc(s: Seq<char>) -> Seq<char>
    decreases s.len(),
{
    if s.len() == 0 {
        Seq::empty()
    } else {
        esc_char(s[0]) + esc(s.skip(1))
    }
}

/// The opening of a `Set` record, up to the first character of the key.
pub open spec fn set_prefix() -> Seq<char> {
    seq!['{', '"', 'S', 'e', 't', '"', ':', '{', '"', 'k', 'e', 'y', '"', ':', '"']
}

/// Between the key's closing quote and the value's opening quote.
pub open spec fn after_key() -> Seq<char> {
    seq![',', '"', 'v', 'a', 'l', 'u', 'e', '"', ':', '"']
}

/// The opening of a `Remove` record, up to the first character of the key.
pub open spec fn rm_prefix() -> Seq<char> {
    seq!['{', '"', 'R', 'e', 'm', 'o', 'v', 'e', '"', ':', '{', '"', 'k', 'e', 'y', '"', ':', '"']
}

/// The two braces that close a record.
pub open spec fn end_braces() -> Seq<char> {
    seq!['}', '}']
}

/// The encoding of a `Set` record.
pub open spec fn enc_set(k: Seq<char>, v: Seq<char>) -> Seq<char> {
    set_prefix() + esc(k) + seq!['"'] + after_key() + esc(v) + seq!['"'] + end_braces()
}

/// The encoding of a `Remove` record.
pub open spec fn enc_remove(k: Seq<char>) -> Seq<char> {
    rm_prefix() + esc(k) + seq!['"'] + end_braces()
}

/// The encoding of any record.
pub open spec fn encode(c: CommandView) -> Seq<char> {
    match c {
        CommandView::Put { key, value } => enc_set(key, value),
        CommandView::Remove { key } => enc_remove(key),
    }
}

/// The contents of a log file holding the records `rs`, in order.
pub open spec fn encode_all(rs: Seq<CommandView>) -> Seq<char>
    decreases rs.len(),
{
    if rs.len() == 0 {
        Seq::empty()
    } else {
        encode_all(rs.drop_last()) + encode(rs.last())
    }
}

/// Relies on `String::push`: it appends exactly the given character.
#[verifier::external_body]
pub(crate) fn push_char(s: &mut String, c: char)
    ensures
        final(s)@ == old(s)@.push(c),
{
    s.push(c);
}

/// Escaping one more character extends the escaped text by that
/// character's escape.
pub proof fn lemma_esc_push(s: Seq<char>, c: char)
    ensures
        esc(s.push(c)) == esc(s) + esc_char(c),
    decreases s.len(),
{
    if s.len() == 0 {
        assert(s.push(c)[0] == c);
        assert(s.push(c).skip(1) =~= Seq::<char>::empty());
        assert(esc(s.push(c)) == esc_char(c) + esc(Seq::<char>::empty()));
        assert(esc(s.push(c)) =~= esc(s) + esc_char(c));
    } else {
        assert(s.push(c)[0] == s[0]);
        assert(s.push(c).skip(1) =~= s.skip(1).push(c));
        lemma_esc_push(s.skip(1), c);
        assert(esc(s.push(c)) =~= esc(s) + esc_char(c));
    }
}

/// An escaped string is at most six times its length: each character
/// becomes itself or one `\u00XX` escape.
pub proof fn lemma_esc_len_bound(s: Seq<char>)
    ensures
        esc(s).len() <= 6 * s.len(),
    decreases s.len(),
{
    if s.len() > 0 {
        lemma_esc_len_bound(s.skip(1));
    }
}

/// Appending one more record extends the file by that record's encoding.
pub proof fn lemma_encode_all_push(rs: Seq<CommandView>, c: CommandView)
    ensures
        encode_all(rs.push(c)) == encode_all(rs) + encode(c),
{
    assert(rs.push(c).drop_last() =~= rs);
    assert(rs.push(c).last() == c);
}

/// The digit for `n` as an exec character.
fn hex_digit_char(n: u8) -> (c: char)
    requires
        n < 16,
    ensures
        c == hex_digit(n as int),
{
    if n < 10 {
        (0x30 + n) as char
    } else {
        (0x57 + n) as char
    }
}

/// Append `esc(s@)` to `out`.
pub(crate) fn append_escaped(out: &mut String, s: &str)
    ensures
        final(out)@ == old(out)@ + esc(s@),
{
    let n = s.unicode_len();
    let mut i: usize = 0;
    proof {
        assert(out@ =~= old(out)@ + esc(s@.take(0)));
    }
    while i < n
        invariant
            n == s@.len(),
            i <= n,
            out@ == old(out)@ + esc(s@.take(i as int)),
        decreases n - i,
    {
        let c = s.get_char(i);
        let code: u32 = c as u32;
        if code < 0x20 || c == '"' || c == '\\' {
            push_char(out, '\\');
            push_char(out, 'u');
            push_char(out, '0');
            push_char(out, '0');
            push_char(out, hex_digit_char((code / 16) as u8));
            push_char(out, hex_digit_char((code % 16) as u8));
        } else {
            push_char(out, c);
        }
        proof {
            assert(s@.take(i + 1) =~= s@.take(i as int).push(s@[i as int]));
            lemma_esc_push(s@.take(i as int), s@[i as int]);
            assert(out@ =~= old(out)@ + esc(s@.take(i + 1)));
        }
        i = i + 1;
    }
    proof {
        assert(s@.take(n as int) =~= s@);
    }
}

/// The literal text of each fixed part of a record.
proof fn lemma_fixed_parts()
    ensures
        "{\"Set\":{\"key\":\""@ == set_prefix(),
        "\",\"value\":\""@ == seq!['"'] + after_key(),
        ",\"value\":\""@ == after_key(),
        "{\"Remove\":{\"key\":\""@ == rm_prefix(),
        "\"}}"@ == seq!['"'] + end_braces(),
        "\""@ == seq!['"'],
        "}}"@ == end_braces(),
{
    reveal_strlit("{\"Set\":{\"key\":\"");
    reveal_strlit("\",\"value\":\"");
    reveal_strlit(",\"value\":\"");
    reveal_strlit("{\"Remove\":{\"key\":\"");
    reveal_strlit("\"}}");
    reveal_strlit("\"");
    reveal_strlit("}}");
    assert("{\"Set\":{\"key\":\""@ =~= set_prefix());
    assert("\",\"value\":\""@ =~= seq!['"'] + after_key());
    assert(",\"value\":\""@ =~= after_key());
    assert("{\"Remove\":{\"key\":\""@ =~= rm_prefix());
    assert("\"}}"@ =~= seq!['"'] + end_braces());
    assert("\""@ =~= seq!['"']);
    assert("}}"@ =~= end_braces());
}

/// A common prefix can be struck from an equation between concatenations.
pub(crate) proof fn lemma_concat_cancel(a: Seq<char>, x: Seq<char>, y: Seq<char>)
    requires
        a + x == a + y,
    ensures
        x == y,
{
    assert(x =~= (a + x).skip(a.len() as int));
    assert(y =~= (a + y).skip(a.len() as int));
}

/// Concatenation of character sequences associates.
proof fn lemma_concat_assoc(x: Seq<char>, y: Seq<char>, z: Seq<char>)
    ensures
        (x + y) + z == x + (y + z),
{
    assert((x + y) + z =~= x + (y + z));
}

/// What the first character of an escape can be.
proof fn lemma_esc_char_head(c: char)
    ensures
        esc_char(c).len() == (if is_escaped_char(c) { 6int } else { 1int }),
        esc_char(c)[0] != '"',
        is_escaped_char(c) ==> esc_char(c)[0] == '\\',
        !is_escaped_char(c) ==> esc_char(c)[0] == c,
{
}

/// Digits are digits: their range, and their injectivity.
proof fn lemma_hex_digit(m: int)
    requires
        0 <= m < 16,
    ensures
        0x30 <= hex_digit(m) as int <= 0x39 || 0x61 <= hex_digit(m) as int <= 0x66,
        hex_digit(m) != '"',
        hex_digit(m) != '\\',
        forall|n: int| 0 <= n < 16 && hex_digit(m) == hex_digit(n) ==> m == n,
{
    assert forall|n: int| 0 <= n < 16 && hex_digit(m) == hex_digit(n) implies m == n by {
        if n < 10 {
            assert(hex_digit(n) as int == 0x30 + n);
        } else {
            assert(hex_digit(n) as int == 0x57 + n);
        }
    }
}

/// Escaped streams cannot diverge: if two escaped strings, each followed by
/// a closing quote, write the same characters, the strings were equal.
/// The quote is what makes this true: it never occurs inside an escape.
pub(crate) proof fn lemma_esc_unambiguous(a: Seq<char>, b: Seq<char>, t: Seq<char>, u: Seq<char>)
    requires
        esc(a) + seq!['"'] + t == esc(b) + seq!['"'] + u,
    ensures
        a == b,
        t == u,
    decreases a.len(),
{
    let q: Seq<char> = seq!['"'];
    let lhs = esc(a) + q + t;
    if a.len() == 0 {
        if b.len() != 0 {
            lemma_esc_char_head(b[0]);
            assert(esc(b) == esc_char(b[0]) + esc(b.skip(1)));
            assert(lhs[0] == '"');
            assert((esc(b) + q + u)[0] == esc_char(b[0])[0]);
            assert(false);
        }
        assert(a =~= b);
        assert(t =~= lhs.skip(1));
        assert(u =~= (esc(b) + q + u).skip(1));
    } else if b.len() == 0 {
        lemma_esc_char_head(a[0]);
        assert(esc(a) == esc_char(a[0]) + esc(a.skip(1)));
        assert((esc(b) + q + u)[0] == '"');
        assert(lhs[0] == esc_char(a[0])[0]);
        assert(false);
    } else {
        let a0 = a[0];
        let b0 = b[0];
        assert(esc(a) == esc_char(a0) + esc(a.skip(1)));
        assert(esc(b) == esc_char(b0) + esc(b.skip(1)));
        lemma_esc_char_head(a0);
        lemma_esc_char_head(b0);
        assert(lhs =~= esc_char(a0) + (esc(a.skip(1)) + q + t));
        assert(lhs =~= esc_char(b0) + (esc(b.skip(1)) + q + u));
        assert(lhs[0] == esc_char(a0)[0]);
        assert(lhs[0] == esc_char(b0)[0]);
        assert(esc_char(a0)[0] == esc_char(b0)[0]);
        if is_escaped_char(a0) && !is_escaped_char(b0) {
            assert(b0 == '\\');
            assert(false);
        }
        if !is_escaped_char(a0) && is_escaped_char(b0) {
            assert(a0 == '\\');
            assert(false);
        }
        if !is_escaped_char(a0) {
            assert(a0 == b0);
            lemma_concat_cancel(esc_char(a0), esc(a.skip(1)) + q + t, esc(b.skip(1)) + q + u);
            lemma_esc_unambiguous(a.skip(1), b.skip(1), t, u);
            assert(a =~= seq![a0] + a.skip(1));
            assert(b =~= seq![b0] + b.skip(1));
        } else {
            let ca = a0 as u32 as int;
            let cb = b0 as u32 as int;
            assert(0 <= ca / 16 < 16 && 0 <= ca % 16 < 16);
            assert(0 <= cb / 16 < 16 && 0 <= cb % 16 < 16);
            assert(lhs[4] == hex_digit(ca / 16) && lhs[4] == hex_digit(cb / 16));
            assert(lhs[5] == hex_digit(ca % 16) && lhs[5] == hex_digit(cb % 16));
            lemma_hex_digit(ca / 16);
            lemma_hex_digit(ca % 16);
            assert(ca == cb);
            vstd::utf8::char_u32_cast(a0, a0 as u32);
            vstd::utf8::char_u32_cast(b0, b0 as u32);
            assert(a0 == b0);
            lemma_concat_cancel(esc_char(a0), esc(a.skip(1)) + q + t, esc(b.skip(1)) + q + u);
            lemma_esc_unambiguous(a.skip(1), b.skip(1), t, u);
            assert(a =~= seq![a0] + a.skip(1));
            assert(b =~= seq![b0] + b.skip(1));
        }
    }
}

/// A record boundary is never ambiguous: whatever follows, the first
/// record written to a stream is the only record that can be read back
/// from its start.
#[verifier::rlimit(60)]
#[verifier::spinoff_prover]
pub proof fn lemma_encode_unambiguous(c1: CommandView, c2: CommandView, r1: Seq<char>, r2: Seq<char>)
    requires
        encode(c1) + r1 == encode(c2) + r2,
    ensures
        c1 == c2,
        r1 == r2,
{
    let q: Seq<char> = seq!['"'];
    let bb = end_braces();
    let lhs = encode(c1) + r1;
    match c1 {
        CommandView::Put { key: k1, value: v1 } => {
            assert(lhs =~= set_prefix() + (esc(k1) + q + (after_key() + (esc(v1) + q + (bb + r1)))));
            assert(lhs[2] == 'S');
            match c2 {
                CommandView::Put { key: k2, value: v2 } => {
                    assert(lhs =~= set_prefix() + (esc(k2) + q + (after_key() + (esc(v2) + q + (bb + r2)))));
                    lemma_concat_cancel(
                        set_prefix(),
                        esc(k1) + q + (after_key() + (esc(v1) + q + (bb + r1))),
                        esc(k2) + q + (after_key() + (esc(v2) + q + (bb + r2))),
                    );
                    lemma_esc_unambiguous(
                        k1,
                        k2,
                        after_key() + (esc(v1) + q + (bb + r1)),
                        after_key() + (esc(v2) + q + (bb + r2)),
                    );
                    lemma_concat_cancel(after_key(), esc(v1) + q + (bb + r1), esc(v2) + q + (bb + r2));
                    lemma_esc_unambiguous(v1, v2, bb + r1, bb + r2);
                    lemma_concat_cancel(bb, r1, r2);
                }
                CommandView::Remove { key: k2 } => {
                    assert(lhs =~= rm_prefix() + (esc(k2) + q + (bb + r2)));
                    assert(lhs[2] == 'R');
                    assert(false);
                }
            }
        }
        CommandView::Remove { key: k1 } => {
            assert(lhs =~= rm_prefix() + (esc(k1) + q + (bb + r1)));
            assert(lhs[2] == 'R');
            match c2 {
                CommandView::Put { key: k2, value: v2 } => {
                    assert(lhs =~= set_prefix() + (esc(k2) + q + (after_key() + (esc(v2) + q + (bb + r2)))));
                    assert(lhs[2] == 'S');
                    assert(false);
                }
                CommandView::Remove { key: k2 } => {
                    assert(lhs =~= rm_prefix() + (esc(k2) + q + (bb + r2)));
                    lemma_concat_cancel(rm_prefix(), esc(k1) + q + (bb + r1), esc(k2) + q + (bb + r2));
                    lemma_esc_unambiguous(k1, k2, bb + r1, bb + r2);
                    lemma_concat_cancel(bb, r1, r2);
                }
            }
        }
    }
}

/// A record stream read from the start: the first record comes first.
pub proof fn lemma_encode_all_first(rs: Seq<CommandView>)
    requires
        rs.len() > 0,
    ensures
        encode_all(rs) == encode(rs[0]) + encode_all(rs.skip(1)),
    decreases rs.len(),
{
    if rs.len() == 1 {
        assert(rs.drop_last().len() == 0);
        assert(rs.skip(1).len() == 0);
        assert(encode_all(rs.drop_last()) == Seq::<char>::empty());
        assert(encode_all(rs.skip(1)) == Seq::<char>::empty());
        assert(encode_all(rs) == encode_all(rs.drop_last()) + encode(rs.last()));
        assert(encode_all(rs) =~= encode(rs[0]) + encode_all(rs.skip(1)));
    } else {
        lemma_encode_all_first(rs.drop_last());
        assert(rs.drop_last()[0] == rs[0]);
        assert(rs.drop_last().skip(1) =~= rs.skip(1).drop_last());
        assert(rs.skip(1).last() == rs.last());
        assert(rs.skip(1).len() > 0);
        assert(encode_all(rs) == encode_all(rs.drop_last()) + encode(rs.last()));
        assert(encode_all(rs.skip(1)) == encode_all(rs.skip(1).drop_last()) + encode(rs.skip(1).last()));
        assert(encode_all(rs.drop_last()) == encode(rs[0]) + encode_all(rs.skip(1).drop_last()));
        lemma_concat_assoc(encode(rs[0]), encode_all(rs.skip(1).drop_last()), encode(rs.last()));
        assert(encode_all(rs) == encode(rs[0]) + encode_all(rs.skip(1)));
    }
}

/// A log file determines the records that were appended to it: two record
/// sequences with the same written form are the same sequence.
#[verifier::rlimit(100)]
#[verifier::spinoff_prover]
pub proof fn lemma_encode_all_injective(x: Seq<CommandView>, y: Seq<CommandView>)
    requires
        encode_all(x) == encode_all(y),
    ensures
        x == y,
    decreases x.len(),
{
    if x.len() == 0 {
        if y.len() > 0 {
            lemma_encode_all_first(y);
            assert(encode_all(y).len() >= encode(y[0]).len());
            assert(false);
        }
        assert(x =~= y);
    } else if y.len() == 0 {
        lemma_encode_all_first(x);
        assert(encode_all(x).len() >= encode(x[0]).len());
        assert(false);
    } else {
        lemma_encode_all_first(x);
        lemma_encode_all_first(y);
        lemma_encode_unambiguous(x[0], y[0], encode_all(x.skip(1)), encode_all(y.skip(1)));
        lemma_encode_all_injective(x.skip(1), y.skip(1));
        assert(x =~= seq![x[0]] + x.skip(1));
        assert(y =~= seq![y[0]] + y.skip(1));
    }
}

/// The stream that starts with the string `k`, its closing quote, and
/// then `rest`.
pub open spec fn quoted(k: Seq<char>, rest: Seq<char>) -> Seq<char> {
    esc(k) + seq!['"'] + rest
}

/// The stream that starts with the record `c` and continues with `rest`.
pub open spec fn record_stream(c: CommandView, rest: Seq<char>) -> Seq<char> {
    encode(c) + rest
}

/// Reading an escaped stream from the middle: if the whole stream writes
/// `k` and a closing quote, and some prefix of it writes `acc`, then `acc`
/// is a prefix of `k` and the remainder writes the rest of `k`.
proof fn lemma_esc_split(k: Seq<char>, acc: Seq<char>, x: Seq<char>, rest: Seq<char>)
    requires
        esc(k) + seq!['"'] + rest == esc(acc) + x,
    ensures
        acc.len() <= k.len(),
        k.take(acc.len() as int) == acc,
        x == esc(k.skip(acc.len() as int)) + seq!['"'] + rest,
    decreases acc.len(),
{
    let q: Seq<char> = seq!['"'];
    let lhs = esc(k) + q + rest;
    if acc.len() == 0 {
        assert(k.take(0) =~= acc);
        assert(k.skip(0) =~= k);
        assert(x =~= (esc(acc) + x).skip(0));
    } else {
        let a0 = acc[0];
        lemma_esc_char_head(a0);
        assert(esc(acc) == esc_char(a0) + esc(acc.skip(1)));
        assert(lhs =~= esc_char(a0) + (esc(acc.skip(1)) + x));
        if k.len() == 0 {
            assert(lhs[0] == '"');
            assert(lhs[0] == esc_char(a0)[0]);
            assert(false);
        }
        let k0 = k[0];
        lemma_esc_char_head(k0);
        assert(esc(k) == esc_char(k0) + esc(k.skip(1)));
        assert(lhs =~= esc_char(k0) + (esc(k.skip(1)) + q + rest));
        assert(lhs[0] == esc_char(k0)[0]);
        assert(lhs[0] == esc_char(a0)[0]);
        if is_escaped_char(a0) && !is_escaped_char(k0) {
            assert(k0 == '\\');
            assert(false);
        }
        if !is_escaped_char(a0) && is_escaped_char(k0) {
            assert(a0 == '\\');
            assert(false);
        }
        if !is_escaped_char(a0) {
            assert(a0 == k0);
            lemma_concat_cancel(esc_char(a0), esc(k.skip(1)) + q + rest, esc(acc.skip(1)) + x);
            lemma_esc_split(k.skip(1), acc.skip(1), x, rest);
            assert(k.take(acc.len() as int) =~= seq![k0] + k.skip(1).take(acc.len() - 1));
            assert(acc =~= seq![a0] + acc.skip(1));
            assert(k.skip(1).skip(acc.len() - 1) =~= k.skip(acc.len() as int));
        } else {
            let ca = a0 as u32 as int;
            let ck = k0 as u32 as int;
            assert(0 <= ca / 16 < 16 && 0 <= ca % 16 < 16);
            assert(0 <= ck / 16 < 16 && 0 <= ck % 16 < 16);
            assert(lhs[4] == hex_digit(ca / 16) && lhs[4] == hex_digit(ck / 16));
            assert(lhs[5] == hex_digit(ca % 16) && lhs[5] == hex_digit(ck % 16));
            lemma_hex_digit(ca / 16);
            lemma_hex_digit(ca % 16);
            assert(ca == ck);
            vstd::utf8::char_u32_cast(a0, a0 as u32);
            vstd::utf8::char_u32_cast(k0, k0 as u32);
            assert(a0 == k0);
            lemma_concat_cancel(esc_char(a0), esc(k.skip(1)) + q + rest, esc(acc.skip(1)) + x);
            lemma_esc_split(k.skip(1), acc.skip(1), x, rest);
            assert(k.take(acc.len() as int) =~= seq![k0] + k.skip(1).take(acc.len() - 1));
            assert(acc =~= seq![a0] + acc.skip(1));
            assert(k.skip(1).skip(acc.len() - 1) =~= k.skip(acc.len() as int));
        }
    }
}

/// A sequence splits at any interior point.
pub(crate) proof fn lemma_skip_split(s: Seq<char>, a: int, b: int)
    requires
        0 <= a <= b <= s.len(),
    ensures
        s.skip(a) == s.subrange(a, b) + s.skip(b),
{
    assert(s.skip(a) =~= s.subrange(a, b) + s.skip(b));
}

/// Compare the text at position `i` against a fixed pattern.
pub(crate) fn match_pattern(s: &str, n: usize, i: usize, pat: &str) -> (b: bool)
    requires
        n == s@.len(),
        i <= n,
    ensures
        b == (i + pat@.len() <= n && s@.subrange(i as int, i + pat@.len()) == pat@),
{
    let pl = pat.unicode_len();
    if n - i < pl {
        return false;
    }
    let mut j: usize = 0;
    while j < pl
        invariant
            n == s@.len(),
            pl == pat@.len(),
            i + pl <= n,
            j <= pl,
            s@.subrange(i as int, i + j) == pat@.take(j as int),
        decreases pl - j,
    {
        let c = s.get_char(i + j);
        let p = pat.get_char(j);
        if c != p {
            proof {
                assert(s@[i + j] != pat@[j as int]);
                assert(s@.subrange(i as int, i + pl)[j as int] == s@[i + j]);
            }
            return false;
        }
        proof {
            assert(s@.subrange(i as int, i + j + 1) =~= s@.subrange(i as int, i + j).push(s@[i + j]));
            assert(pat@.take(j + 1) =~= pat@.take(j as int).push(pat@[j as int]));
        }
        j = j + 1;
    }
    proof {
        assert(pat@.take(pl as int) =~= pat@);
    }
    true
}

/// The value of a lower-case hexadecimal digit, if `c` is one.
fn hex_val(c: char) -> (r: Option<u8>)
    ensures
        (match r {
            Option::Some(v) => v < 16 && hex_digit(v as int) == c,
            Option::None => forall|m: int| 0 <= m < 16 ==> hex_digit(m) != c,
        }),
{
    let u = c as u32;
    proof {
        vstd::utf8::char_u32_cast(c, u);
    }
    if 0x30 <= u && u <= 0x39 {
        Some((u - 0x30) as u8)
    } else if 0x61 <= u && u <= 0x66 {
        Some((u - 0x57) as u8)
    } else {
        proof {
            assert forall|m: int| 0 <= m < 16 implies hex_digit(m) != c by {
                lemma_hex_digit(m);
                if hex_digit(m) == c {
                    assert(hex_digit(m) as int == c as u32 as int);
                }
            }
        }
        None
    }
}

/// Read an escaped string up to and including its closing quote.
///
/// On success the consumed text is exactly the returned string's escape
/// followed by the quote; on failure no string at all starts at `start`.
pub(crate) fn parse_string(s: &str, n: usize, start: usize) -> (r: Option<(String, usize)>)
    requires
        n == s@.len(),
        start <= n,
    ensures
        (match r {
            Option::Some(p) => {
                &&& start + p.1 <= n
                &&& 1 <= p.1
                &&& s@.subrange(start as int, (start + p.1) as int) == esc(p.0@) + seq!['"']
            },
            Option::None => forall|k: Seq<char>, rest: Seq<char>|
                s@.skip(start as int) != quoted(k, rest),
        }),
{
    let ghost q: Seq<char> = seq!['"'];
    let mut acc = String::new();
    let mut i: usize = start;
    proof {
        assert(s@.subrange(start as int, start as int) =~= esc(acc@));
    }
    loop
        invariant
            n == s@.len(),
            start <= i <= n,
            s@.subrange(start as int, i as int) == esc(acc@),
        decreases n - i,
    {
        proof {
            lemma_skip_split(s@, start as int, i as int);
        }
        if i == n {
            proof {
                assert forall|k: Seq<char>, rest: Seq<char>|
                    s@.skip(start as int) != quoted(k, rest) by {
                    if s@.skip(start as int) == quoted(k, rest) {
                        lemma_esc_split(k, acc@, s@.skip(i as int), rest);
                        assert(s@.skip(i as int).len() == 0);
                        assert(false);
                    }
                }
            }
            return None;
        }
        let c = s.get_char(i);
        if c == '"' {
            proof {
                assert(s@[i as int] == '"');
                assert(s@.subrange(start as int, i + 1) =~= s@.subrange(start as int, i as int) + seq!['"']);
            }
            return Some((acc, i + 1 - start));
        }
        if c == '\\' {
            // an escape is exactly the six characters `\u00` plus two digits
            if n - i < 6 {
                proof {
                    assert forall|k: Seq<char>, rest: Seq<char>|
                        s@.skip(start as int) != quoted(k, rest) by {
                        if s@.skip(start as int) == quoted(k, rest) {
                            lemma_esc_split(k, acc@, s@.skip(i as int), rest);
                            let k2 = k.skip(acc@.len() as int);
                            split_head_facts(s@, i as int, k2, rest);
                            assert(is_escaped_char(k2[0]));
                            assert(s@.skip(i as int).len() >= 7);
                            assert(false);
                        }
                    }
                }
                return None;
            }
            let c1 = s.get_char(i + 1);
            let c2 = s.get_char(i + 2);
            let c3 = s.get_char(i + 3);
            let h1 = hex_val(s.get_char(i + 4));
            let h2 = hex_val(s.get_char(i + 5));
            let mut good = c1 == 'u' && c2 == '0' && c3 == '0';
            let mut code: u8 = 0;
            match (h1, h2) {
                (Some(v1), Some(v2)) => {
                    code = v1 * 16 + v2;
                    if !(code < 0x20 || code == 0x22 || code == 0x5C) {
                        good = false;
                    }
                }
                _ => {
                    good = false;
                }
            }
            if !good {
                proof {
                    assert forall|k: Seq<char>, rest: Seq<char>|
                        s@.skip(start as int) != quoted(k, rest) by {
                        if s@.skip(start as int) == quoted(k, rest) {
                            lemma_esc_split(k, acc@, s@.skip(i as int), rest);
                            let k2 = k.skip(acc@.len() as int);
                            split_head_facts(s@, i as int, k2, rest);
                            let ck = k2[0] as u32 as int;
                            lemma_hex_digit(ck / 16);
                            lemma_hex_digit(ck % 16);
                            assert(s@[i + 4] == hex_digit(ck / 16));
                            assert(s@[i + 5] == hex_digit(ck % 16));
                            assert(false);
                        }
                    }
                }
                return None;
            }
            let ch = code as char;
            proof {
                let ghost old_acc = acc@;
                assert(ch as u32 == code as u32);
                assert(is_escaped_char(ch));
                assert(esc_char(ch) =~= seq!['\\', 'u', '0', '0', hex_digit((code as int) / 16), hex_digit((code as int) % 16)]);
            }
            let ghost prev = acc@;
            push_char(&mut acc, ch);
            proof {
                lemma_esc_push(prev, ch);
                assert(s@.subrange(i as int, i + 6) =~= esc_char(ch));
                assert(s@.subrange(start as int, i + 6) =~= s@.subrange(start as int, i as int) + s@.subrange(i as int, i + 6));
            }
            i = i + 6;
        } else {
            let u = c as u32;
            if u < 0x20 {
                proof {
                    assert forall|k: Seq<char>, rest: Seq<char>|
                        s@.skip(start as int) != quoted(k, rest) by {
                        if s@.skip(start as int) == quoted(k, rest) {
                            lemma_esc_split(k, acc@, s@.skip(i as int), rest);
                            let k2 = k.skip(acc@.len() as int);
                            no_literal_escaped(s@, i as int, k2, rest, c);
                        }
                    }
                }
                return None;
            }
            let ghost prev = acc@;
            push_char(&mut acc, c);
            proof {
                lemma_esc_push(prev, c);
                assert(esc_char(c) =~= seq![c]);
                assert(s@.subrange(start as int, i + 1) =~= s@.subrange(start as int, i as int) + seq![c]);
            }
            i = i + 1;
        }
    }
}

/// From a stream that continues with the string `k2` and its quote, read
/// off what its first characters must be when `k2` starts escaped.
proof fn split_head_facts(s: Seq<char>, i: int, k2: Seq<char>, rest: Seq<char>)
    requires
        0 <= i <= s.len(),
        s.skip(i) == quoted(k2, rest),
        s.skip(i).len() > 0,
        s[i] == '\\',
    ensures
        k2.len() > 0,
        is_escaped_char(k2[0]),
        s.skip(i).len() >= 7,
        i + 6 <= s.len(),
        s[i + 1] == 'u' && s[i + 2] == '0' && s[i + 3] == '0',
        s[i + 4] == hex_digit((k2[0] as u32 as int) / 16),
        s[i + 5] == hex_digit((k2[0] as u32 as int) % 16),
        0 <= (k2[0] as u32 as int) < 0x5D,
        s.skip(i + 6) == quoted(k2.skip(1), rest),
{
    let q: Seq<char> = seq!['"'];
    let str0 = s.skip(i);
    if k2.len() == 0 {
        assert(str0[0] == '"');
        assert(false);
    }
    let c0 = k2[0];
    lemma_esc_char_head(c0);
    assert(esc(k2) == esc_char(c0) + esc(k2.skip(1)));
    assert(str0 =~= esc_char(c0) + (esc(k2.skip(1)) + q + rest));
    assert(str0[0] == esc_char(c0)[0]);
    if !is_escaped_char(c0) {
        assert(str0[0] == c0);
        assert(false);
    }
    vstd::utf8::char_u32_cast(c0, c0 as u32);
    assert(str0.len() == 6 + (esc(k2.skip(1)) + q + rest).len());
    assert(str0[1] == 'u' && str0[2] == '0' && str0[3] == '0');
    assert(str0[4] == hex_digit((c0 as u32 as int) / 16));
    assert(str0[5] == hex_digit((c0 as u32 as int) % 16));
    assert(s.skip(i + 6) =~= str0.skip(6));
    assert(str0.skip(6) =~= esc(k2.skip(1)) + q + rest);
}

/// A control character in the clear can never continue a string.
proof fn no_literal_escaped(s: Seq<char>, i: int, k2: Seq<char>, rest: Seq<char>, c: char)
    requires
        0 <= i < s.len(),
        s[i] == c,
        c != '"',
        c != '\\',
        (c as u32) < 0x20,
    ensures
        s.skip(i) != quoted(k2, rest),
{
    if s.skip(i) == quoted(k2, rest) {
        let q: Seq<char> = seq!['"'];
        let str0 = s.skip(i);
        if k2.len() == 0 {
            assert(str0[0] == '"');
            assert(false);
        }
        let c0 = k2[0];
        lemma_esc_char_head(c0);
        assert(esc(k2) == esc_char(c0) + esc(k2.skip(1)));
        assert(str0 =~= esc_char(c0) + (esc(k2.skip(1)) + q + rest));
        assert(str0[0] == esc_char(c0)[0]);
        if is_escaped_char(c0) {
            assert(str0[0] == '\\');
            assert(false);
        } else {
            assert(str0[0] == c0);
            assert(is_escaped_char(c));
            assert(false);
        }
    }
}

/// Serialize one record into its canonical text.
pub fn encode_command(cmd: &Command) -> (r: String)
    ensures
        r@ == encode(cmd@),
{
    proof {
        lemma_fixed_parts();
    }
    let mut out = String::new();
    match cmd {
        Command::Put { key, value } => {
            out.append("{\"Set\":{\"key\":\"");
            append_escaped(&mut out, key.as_str());
            out.append("\",\"value\":\"");
            proof {
                assert(out@ =~= set_prefix() + esc(key@) + seq!['"'] + after_key());
            }
            append_escaped(&mut out, value.as_str());
            out.append("\"}}");
            proof {
                assert(out@ =~= enc_set(key@, value@));
            }
        }
        Command::Remove { key } => {
            out.append("{\"Remove\":{\"key\":\"");
            append_escaped(&mut out, key.as_str());
            out.append("\"}}");
            proof {
                assert(out@ =~= enc_remove(key@));
            }
        }
    }
    out
}

/// What a stream that starts with a `Set` record looks like.
proof fn lemma_put_stream(s: Seq<char>, at: int, k: Seq<char>, v: Seq<char>, rest: Seq<char>)
    requires
        0 <= at <= s.len(),
        s.skip(at) == record_stream((CommandView::Put { key: k, value: v }), rest),
    ensures
        at + 15 <= s.len(),
        s.subrange(at, at + 15) == set_prefix(),
        s.skip(at + 15) == quoted(k, after_key() + (esc(v) + seq!['"'] + (end_braces() + rest))),
{
    let q: Seq<char> = seq!['"'];
    let tail = esc(k) + q + (after_key() + (esc(v) + q + (end_braces() + rest)));
    assert(s.skip(at) =~= set_prefix() + tail);
    assert(s.skip(at).len() == s.len() - at);
    assert(s.subrange(at, at + 15) =~= (set_prefix() + tail).take(15));
    assert((set_prefix() + tail).take(15) =~= set_prefix());
    assert(s.skip(at + 15) =~= (set_prefix() + tail).skip(15));
    assert((set_prefix() + tail).skip(15) =~= tail);
}

/// What a stream that starts with a `Remove` record looks like.
proof fn lemma_remove_stream(s: Seq<char>, at: int, k: Seq<char>, rest: Seq<char>)
    requires
        0 <= at <= s.len(),
        s.skip(at) == record_stream((CommandView::Remove { key: k }), rest),
    ensures
        at + 18 <= s.len(),
        s.subrange(at, at + 18) == rm_prefix(),
        s.skip(at + 18) == quoted(k, end_braces() + rest),
{
    let q: Seq<char> = seq!['"'];
    let tail = esc(k) + q + (end_braces() + rest);
    assert(s.skip(at) =~= rm_prefix() + tail);
    assert(s.skip(at).len() == s.len() - at);
    assert(s.subrange(at, at + 18) =~= (rm_prefix() + tail).take(18));
    assert((rm_prefix() + tail).take(18) =~= rm_prefix());
    assert(s.skip(at + 18) =~= (rm_prefix() + tail).skip(18));
    assert((rm_prefix() + tail).skip(18) =~= tail);
}

/// A position that opens a `Set` record cannot also open a `Remove`.
proof fn lemma_set_excludes_remove(s: Seq<char>, at: int, k: Seq<char>, rest: Seq<char>)
    requires
        0 <= at,
        at + 15 <= s.len(),
        s.subrange(at, at + 15) == set_prefix(),
    ensures
        s.skip(at) != record_stream((CommandView::Remove { key: k }), rest),
{
    if s.skip(at) == record_stream((CommandView::Remove { key: k }), rest) {
        lemma_remove_stream(s, at, k, rest);
        assert(s.subrange(at, at + 15)[2] == 'S');
        assert(s.subrange(at, at + 18)[2] == 'R');
        assert(s[at + 2] == 'S' && s[at + 2] == 'R');
        assert(false);
    }
}

/// Read one `Set` record whose opening text has already been seen.
#[verifier::rlimit(60)]
#[verifier::spinoff_prover]
fn decode_set(s: &str, n: usize, start: usize) -> (r: Option<(String, String, usize)>)
    requires
        n == s@.len(),
        start + 15 <= n,
        s@.subrange(start as int, start + 15) == set_prefix(),
    ensures
        (match r {
            Option::Some(p) => {
                &&& start + p.2 <= n
                &&& s@.subrange(start as int, (start + p.2) as int) == enc_set(p.0@, p.1@)
            },
            Option::None => forall|k: Seq<char>, v: Seq<char>, rest: Seq<char>|
                s@.skip(start as int) != record_stream((CommandView::Put { key: k, value: v }), rest),
        }),
{
    let ghost q: Seq<char> = seq!['"'];
    proof {
        lemma_fixed_parts();
    }
    let i = start + 15;
    let key_parse = parse_string(s, n, i);
    if key_parse.is_none() {
        proof {
            assert forall|k: Seq<char>, v: Seq<char>, rest: Seq<char>|
                s@.skip(start as int) != record_stream((CommandView::Put { key: k, value: v }), rest) by {
                if s@.skip(start as int) == record_stream((CommandView::Put { key: k, value: v }), rest) {
                    lemma_put_stream(s@, start as int, k, v, rest);
                    assert(false);
                }
            }
        }
        return None;
    }
    let (key, used1) = key_parse.unwrap();
    let j = i + used1;
    proof {
        lemma_skip_split(s@, i as int, j as int);
    }
    if !match_pattern(s, n, j, ",\"value\":\"") {
        proof {
            assert forall|k: Seq<char>, v: Seq<char>, rest: Seq<char>|
                s@.skip(start as int) != record_stream((CommandView::Put { key: k, value: v }), rest) by {
                if s@.skip(start as int) == record_stream((CommandView::Put { key: k, value: v }), rest) {
                    lemma_put_stream(s@, start as int, k, v, rest);
                    let r1 = after_key() + (esc(v) + q + (end_braces() + rest));
                    lemma_esc_unambiguous(key@, k, s@.skip(j as int), r1);
                    assert(s@.skip(j as int) == r1);
                    assert(s@.skip(j as int).len() == n - j);
                    assert(s@.subrange(j as int, j + 10) =~= r1.take(10));
                    assert(r1.take(10) =~= after_key());
                    assert(false);
                }
            }
        }
        return None;
    }
    let p2 = j + 10;
    let val_parse = parse_string(s, n, p2);
    if val_parse.is_none() {
        proof {
            assert forall|k: Seq<char>, v: Seq<char>, rest: Seq<char>|
                s@.skip(start as int) != record_stream((CommandView::Put { key: k, value: v }), rest) by {
                if s@.skip(start as int) == record_stream((CommandView::Put { key: k, value: v }), rest) {
                    lemma_put_stream(s@, start as int, k, v, rest);
                    let r1 = after_key() + (esc(v) + q + (end_braces() + rest));
                    lemma_esc_unambiguous(key@, k, s@.skip(j as int), r1);
                    assert(s@.skip(j as int) == r1);
                    assert(s@.skip(p2 as int) =~= s@.skip(j as int).skip(10));
                    assert(s@.skip(j as int).skip(10) =~= esc(v) + q + (end_braces() + rest));
                    assert(s@.skip(p2 as int) == quoted(v, end_braces() + rest));
                    assert(false);
                }
            }
        }
        return None;
    }
    let (value, used2) = val_parse.unwrap();
    let m = p2 + used2;
    proof {
        lemma_skip_split(s@, p2 as int, m as int);
    }
    if !match_pattern(s, n, m, "}}") {
        proof {
            assert forall|k: Seq<char>, v: Seq<char>, rest: Seq<char>|
                s@.skip(start as int) != record_stream((CommandView::Put { key: k, value: v }), rest) by {
                if s@.skip(start as int) == record_stream((CommandView::Put { key: k, value: v }), rest) {
                    lemma_put_stream(s@, start as int, k, v, rest);
                    let r1 = after_key() + (esc(v) + q + (end_braces() + rest));
                    lemma_esc_unambiguous(key@, k, s@.skip(j as int), r1);
                    assert(s@.skip(j as int) == r1);
                    assert(s@.skip(p2 as int) =~= s@.skip(j as int).skip(10));
                    assert(s@.skip(j as int).skip(10) =~= esc(v) + q + (end_braces() + rest));
                    lemma_esc_unambiguous(value@, v, s@.skip(m as int), end_braces() + rest);
                    assert(s@.skip(m as int) == end_braces() + rest);
                    assert(s@.skip(m as int).len() == n - m);
                    assert(s@.subrange(m as int, m + 2) =~= (end_braces() + rest).take(2));
                    assert((end_braces() + rest).take(2) =~= end_braces());
                    assert(false);
                }
            }
        }
        return None;
    }
    proof {
        assert(s@.subrange(start as int, start + 15) == set_prefix());
        assert(s@.subrange(i as int, j as int) == esc(key@) + q);
        assert(s@.subrange(j as int, j + 10) == after_key());
        assert(s@.subrange(p2 as int, m as int) == esc(value@) + q);
        assert(s@.subrange(m as int, m + 2) == end_braces());
        assert(s@.subrange(start as int, m + 2) =~= s@.subrange(start as int, start + 15)
            + s@.subrange(i as int, j as int) + s@.subrange(j as int, j + 10)
            + s@.subrange(p2 as int, m as int) + s@.subrange(m as int, m + 2));
        assert(s@.subrange(start as int, m + 2) =~= enc_set(key@, value@));
    }
    Some((key, value, m + 2 - start))
}

/// Read one `Remove` record whose opening text has already been seen.
#[verifier::rlimit(60)]
#[verifier::spinoff_prover]
fn decode_remove(s: &str, n: usize, start: usize) -> (r: Option<(String, usize)>)
    requires
        n == s@.len(),
        start + 18 <= n,
        s@.subrange(start as int, start + 18) == rm_prefix(),
    ensures
        (match r {
            Option::Some(p) => {
                &&& start + p.1 <= n
                &&& s@.subrange(start as int, (start + p.1) as int) == enc_remove(p.0@)
            },
            Option::None => forall|k: Seq<char>, rest: Seq<char>|
                s@.skip(start as int) != record_stream((CommandView::Remove { key: k }), rest),
        }),
{
    let ghost q: Seq<char> = seq!['"'];
    proof {
        lemma_fixed_parts();
    }
    let i = start + 18;
    let key_parse = parse_string(s, n, i);
    if key_parse.is_none() {
        proof {
            assert forall|k: Seq<char>, rest: Seq<char>|
                s@.skip(start as int) != record_stream((CommandView::Remove { key: k }), rest) by {
                if s@.skip(start as int) == record_stream((CommandView::Remove { key: k }), rest) {
                    lemma_remove_stream(s@, start as int, k, rest);
                    assert(false);
                }
            }
        }
        return None;
    }
    let (key, used1) = key_parse.unwrap();
    let j = i + used1;
    proof {
        lemma_skip_split(s@, i as int, j as int);
    }
    if !match_pattern(s, n, j, "}}") {
        proof {
            assert forall|k: Seq<char>, rest: Seq<char>|
                s@.skip(start as int) != record_stream((CommandView::Remove { key: k }), rest) by {
                if s@.skip(start as int) == record_stream((CommandView::Remove { key: k }), rest) {
                    lemma_remove_stream(s@, start as int, k, rest);
                    lemma_esc_unambiguous(key@, k, s@.skip(j as int), end_braces() + rest);
                    assert(s@.skip(j as int) == end_braces() + rest);
                    assert(s@.skip(j as int).len() == n - j);
                    assert(s@.subrange(j as int, j + 2) =~= (end_braces() + rest).take(2));
                    assert((end_braces() + rest).take(2) =~= end_braces());
                    assert(false);
                }
            }
        }
        return None;
    }
    proof {
        assert(s@.subrange(start as int, start + 18) == rm_prefix());
        assert(s@.subrange(i as int, j as int) == esc(key@) + q);
        assert(s@.subrange(j as int, j + 2) == end_braces());
        assert(s@.subrange(start as int, j + 2) =~= s@.subrange(start as int, start + 18)
            + s@.subrange(i as int, j as int) + s@.subrange(j as int, j + 2));
        assert(s@.subrange(start as int, j + 2) =~= enc_remove(key@));
    }
    Some((key, j + 2 - start))
}

/// Read the record that starts at `start`, if one does.
///
/// On success the consumed text is exactly the record's encoding; on
/// failure no record at all starts there, so a failure during replay
/// means the log is corrupt.
pub fn decode_command(s: &str, start: usize) -> (r: Result<(Command, usize), KvsError>)
    requires
        start <= s@.len(),
    ensures
        (match r {
            Ok(p) => {
                &&& start + p.1 <= s@.len()
                &&& s@.subrange(start as int, (start + p.1) as int) == encode(p.0@)
            },
            Err(e) => {
                &&& e == KvsError::Serialization
                &&& forall|c: CommandView, rest: Seq<char>|
                    s@.skip(start as int) != record_stream(c, rest)
            },
        }),
{
    let n = s.unicode_len();
    proof {
        lemma_fixed_parts();
    }
    if match_pattern(s, n, start, "{\"Set\":{\"key\":\"") {
        match decode_set(s, n, start) {
            Some((key, value, used)) => Ok((Command::Put { key, value }, used)),
            None => {
                proof {
                    assert forall|c: CommandView, rest: Seq<char>|
                        s@.skip(start as int) != record_stream(c, rest) by {
                        match c {
                            CommandView::Put { key, value } => {}
                            CommandView::Remove { key } => {
                                lemma_set_excludes_remove(s@, start as int, key, rest);
                            }
                        }
                    }
                }
                Err(KvsError::Serialization)
            }
        }
    } else if match_pattern(s, n, start, "{\"Remove\":{\"key\":\"") {
        match decode_remove(s, n, start) {
            Some((key, used)) => Ok((Command::Remove { key }, used)),
            None => {
                proof {
                    assert forall|c: CommandView, rest: Seq<char>|
                        s@.skip(start as int) != record_stream(c, rest) by {
                        match c {
                            CommandView::Put { key, value } => {
                                if s@.skip(start as int) == record_stream(c, rest) {
                                    lemma_put_stream(s@, start as int, key, value, rest);
                                    assert(false);
                                }
                            }
                            CommandView::Remove { key } => {}
                        }
                    }
                }
                Err(KvsError::Serialization)
            }
        }
    } else {
        proof {
            assert forall|c: CommandView, rest: Seq<char>|
                s@.skip(start as int) != record_stream(c, rest) by {
                if s@.skip(start as int) == record_stream(c, rest) {
                    match c {
                        CommandView::Put { key, value } => {
                            lemma_put_stream(s@, start as int, key, value, rest);
                        }
                        CommandView::Remove { key } => {
                            lemma_remove_stream(s@, start as int, key, rest);
                        }
                    }
                    assert(false);
                }
            }
        }
        Err(KvsError::Serialization)
    }
}

} // verus!
