//! Splitting a document into lines, with a proof that the split agrees with a
//! character-level model of what a line is.

use vstd::prelude::*;
use vstd::string::StringSliceAdditionalSpecFns;
use vstd::utf8::*;

verus! {

broadcast use {encode_utf8_valid_utf8, encode_utf8_decode_utf8};

/// No character of `s` is a newline.
pub open spec fn newline_free(s: Seq<char>) -> bool {
    forall|i: int| 0 <= i < s.len() ==> s[i] != '\n'
}

/// Number of characters before the first newline of `s` (all of `s` if it has none).
pub open spec fn line_len(s: Seq<char>) -> nat
    decreases s.len(),
{
    if s.len() == 0 || s[0] == '\n' {
        0
    } else {
        1 + line_len(s.drop_first())
    }
}

/// The lines of a document: the runs of characters between newlines. A
/// newline ends a line; a last line without a newline still counts, and the
/// empty text after a final newline is not a line. A `'\r'` before a newline
/// stays part of its line.
pub open spec fn lines(s: Seq<char>) -> Seq<Seq<char>>
    decreases s.len(),
{
    if s.len() == 0 {
        seq![]
    } else if line_len(s) >= s.len() {
        seq![s]
    } else {
        seq![s.take(line_len(s) as int)] + lines(s.skip(line_len(s) + 1int))
    }
}

/// The character views of a sequence of string slices.
pub open spec fn views(v: Seq<&str>) -> Seq<Seq<char>> {
    v.map_values(|s: &str| s@)
}

proof fn lemma_line_len_free(a: Seq<char>, b: Seq<char>)
    requires
        newline_free(a),
    ensures
        line_len(a) == a.len(),
        line_len(a + seq!['\n'] + b) == a.len(),
    decreases a.len(),
{
    if a.len() > 0 {
        assert((a + seq!['\n'] + b).drop_first() =~= a.drop_first() + seq!['\n'] + b);
        lemma_line_len_free(a.drop_first(), b);
    } else {
        assert((a + seq!['\n'] + b)[0] == '\n');
    }
}

/// A document made of a newline-free line, a newline and a rest has that
/// line first, then the lines of the rest.
pub proof fn lemma_lines_step(a: Seq<char>, b: Seq<char>)
    requires
        newline_free(a),
    ensures
        lines(a + seq!['\n'] + b) == seq![a] + lines(b),
{
    lemma_line_len_free(a, b);
    let s = a + seq!['\n'] + b;
    assert(s.take(a.len() as int) =~= a);
    assert(s.skip(a.len() + 1int) =~= b);
}

/// A non-empty newline-free document is a single line.
pub proof fn lemma_lines_single(a: Seq<char>)
    requires
        newline_free(a),
        a.len() > 0,
    ensures
        lines(a) == seq![a],
{
    lemma_line_len_free(a, seq![]);
}

/// A newline in a character sequence shows up as the byte 10 in its encoding.
proof fn lemma_newline_byte(cs: Seq<char>, k: int)
    requires
        0 <= k < cs.len(),
        cs[k] == '\n',
    ensures
        exists|p: int| 0 <= p < encode_utf8(cs).len() && encode_utf8(cs)[p] == 10u8,
    decreases k,
{
    let head = encode_scalar(cs[0] as u32);
    let tail = encode_utf8(cs.drop_first());
    assert(encode_utf8(cs) == head + tail);
    if k == 0 {
        assert(10u32 & 0x7f == 10u32) by (bit_vector);
        assert(head[0] == 10u8);
        assert(encode_utf8(cs)[0] == 10u8);
    } else {
        lemma_newline_byte(cs.drop_first(), k - 1);
        let p = choose|p: int| 0 <= p < tail.len() && tail[p] == 10u8;
        assert(encode_utf8(cs)[head.len() + p] == 10u8);
    }
}

/// A character sequence whose encoding has no byte 10 has no newline.
proof fn lemma_free_from_bytes(cs: Seq<char>)
    requires
        forall|p: int| 0 <= p < encode_utf8(cs).len() ==> encode_utf8(cs)[p] != 10u8,
    ensures
        newline_free(cs),
{
    assert forall|i: int| 0 <= i < cs.len() implies cs[i] != '\n' by {
        if cs[i] == '\n' {
            lemma_newline_byte(cs, i);
        }
    }
}

/// The encoding of a single newline is the byte 10.
proof fn lemma_encode_newline()
    ensures
        encode_utf8(seq!['\n']) == seq![10u8],
{
    assert(10u32 & 0x7f == 10u32) by (bit_vector);
    let nl = seq!['\n'];
    assert(nl[0] as u32 == 10u32);
    assert(encode_scalar(10u32) =~= seq![10u8]);
    assert(nl.drop_first() =~= Seq::<char>::empty());
    assert(encode_utf8(nl.drop_first()) =~= Seq::<u8>::empty());
    assert(encode_utf8(nl) =~= seq![10u8]);
}

/// Splits `content` into its lines, each a slice of `content`, in order.
pub fn split_lines<'a>(content: &'a str) -> (r: Vec<&'a str>)
    ensures
        views(r@) == lines(content@),
{
    let mut out: Vec<&'a str> = Vec::new();
    let mut rest: &'a str = content;
    loop
        invariant_except_break
            lines(content@) == views(out@) + lines(rest@),
        ensures
            lines(content@) == views(out@),
        decreases rest@.len(),
    {
        let bytes = rest.as_bytes();
        let n: usize = bytes.len();
        proof {
            assert(bytes@ == encode_utf8(rest@));
        }
        if n == 0 {
            proof {
                if rest@.len() > 0 {
                    encode_utf8_first_scalar(rest@);
                }
                assert(views(out@) + lines(rest@) =~= views(out@));
            }
            break;
        }
        let mut i: usize = 0;
        while i < n && bytes[i] != 10u8
            invariant
                0 <= i <= n,
                n == bytes@.len(),
                forall|k: int| 0 <= k < i ==> bytes@[k] != 10u8,
            decreases n - i,
        {
            i = i + 1;
        }
        if i == n {
            proof {
                lemma_free_from_bytes(rest@);
                assert(rest@.len() > 0);
                lemma_lines_single(rest@);
                assert(views(out@.push(rest)) =~= views(out@) + seq![rest@]);
            }
            out.push(rest);
            break;
        }
        let ghost whole = rest.spec_bytes();
        proof {
            is_char_boundary_iff_not_is_continuation_byte(whole, i as int);
            decode_utf8_split(whole, i as int);
        }
        let (line, tail) = rest.split_at(i);
        let ghost tbytes = tail.spec_bytes();
        proof {
            assert(tbytes =~= whole.subrange(i as int, whole.len() as int));
            assert(tbytes[0] == 10u8);
            assert(length_of_first_scalar(tbytes) == 1);
            reveal_with_fuel(is_char_boundary, 2);
            assert(is_char_boundary(tbytes, 1));
            decode_utf8_split(tbytes, 1);
        }
        let (nl, after) = tail.split_at(1);
        proof {
            assert(line@ == decode_utf8(encode_utf8(line@)));
            assert(rest@ == decode_utf8(whole));
            assert(rest@ =~= line@ + tail@);
            assert(tail@ =~= nl@ + after@);
            lemma_encode_newline();
            assert(nl.spec_bytes() =~= seq![10u8]);
            assert(nl@ == decode_utf8(encode_utf8(seq!['\n'])));
            assert(nl@ == seq!['\n']);
            assert forall|p: int| 0 <= p < encode_utf8(line@).len() implies encode_utf8(line@)[p]
                != 10u8 by {
                assert(encode_utf8(line@)[p] == bytes@[p]);
            }
            lemma_free_from_bytes(line@);
            assert(rest@ =~= line@ + seq!['\n'] + after@);
            lemma_lines_step(line@, after@);
            assert(views(out@.push(line)) =~= views(out@) + seq![line@]);
        }
        out.push(line);
        rest = after;
    }
    out
}

} // verus!
