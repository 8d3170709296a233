//! The head algorithm itself: computing the leading lines or leading bytes of
//! a source's content, held as raw bytes.

use vstd::prelude::*;
use vstd::slice::slice_subrange;
use vstd::slice::slice_to_vec;

verus! {

/// The newline byte, `\n`.
pub open spec fn newline() -> u8 {
    10u8
}

/// Length of the prefix of `s` that makes up its first `n` lines. A line ends
/// at a newline byte, which belongs to the line; the bytes after the last
/// newline, if any, form one final unterminated line.
pub open spec fn line_prefix_len(s: Seq<u8>, n: nat) -> nat
    decreases s.len(),
{
    if n == 0 || s.len() == 0 {
        0
    } else if s[0] == newline() {
        (1 + line_prefix_len(s.skip(1), (n - 1) as nat)) as nat
    } else {
        (1 + line_prefix_len(s.skip(1), n)) as nat
    }
}

/// The first-lines prefix never reaches past the end of the content.
pub proof fn lemma_line_prefix_len_le(s: Seq<u8>, n: nat)
    ensures
        line_prefix_len(s, n) <= s.len(),
    decreases s.len(),
{
    if n == 0 || s.len() == 0 {
    } else if s[0] == newline() {
        lemma_line_prefix_len_le(s.skip(1), (n - 1) as nat);
    } else {
        lemma_line_prefix_len_le(s.skip(1), n);
    }
}

/// The content split into its lines, each line keeping its terminating
/// newline byte; the final line may lack one.
pub open spec fn split_lines(s: Seq<u8>) -> Seq<Seq<u8>>
    decreases s.len(),
    via split_lines_dec
{
    if s.len() == 0 {
        Seq::empty()
    } else {
        let l = line_prefix_len(s, 1) as int;
        seq![s.take(l)] + split_lines(s.skip(l))
    }
}

#[via_fn]
proof fn split_lines_dec(s: Seq<u8>) {
    if s.len() > 0 {
        lemma_line_prefix_len_le(s, 1);
    }
}

/// The first `count` lines of `content`, each line keeping its original
/// terminator; the whole content if it has fewer lines.
pub fn head_lines(content: &Vec<u8>, count: usize) -> (r: Vec<u8>)
    ensures
        r@ == content@.take(line_prefix_len(content@, count as nat) as int),
{
    let ghost s = content@;
    let mut i: usize = 0;
    let mut remaining: usize = count;
    proof {
        assert(s.skip(0) =~= s);
    }
    while i < content.len() && remaining > 0
        invariant
            i <= content.len(),
            remaining <= count,
            line_prefix_len(s, count as nat) == i + line_prefix_len(
                s.skip(i as int),
                remaining as nat,
            ),
        decreases content.len() - i,
    {
        proof {
            assert(s.skip(i as int).len() > 0);
            assert(s.skip(i as int)[0] == s[i as int]);
            assert(s.skip(i as int).skip(1) =~= s.skip(i as int + 1));
        }
        if content[i] == 10u8 {
            remaining = remaining - 1;
        }
        i = i + 1;
    }
    proof {
        if i == content.len() {
            assert(s.skip(i as int).len() == 0);
        }
        assert(line_prefix_len(s, count as nat) == i);
    }
    slice_to_vec(slice_subrange(content.as_slice(), 0, i))
}

/// Taking `n` lines takes the first line and then `n - 1` lines of the rest.
proof fn lemma_line_prefix_len_step(s: Seq<u8>, n: nat)
    requires
        n >= 1,
    ensures
        line_prefix_len(s, n) == line_prefix_len(s, 1) + line_prefix_len(
            s.skip(line_prefix_len(s, 1) as int),
            (n - 1) as nat,
        ),
    decreases s.len(),
{
    if s.len() == 0 {
        assert(s.skip(0) =~= s);
    } else if s[0] == newline() {
        assert(line_prefix_len(s.skip(1), 0) == 0);
        assert(line_prefix_len(s, 1) == 1);
    } else {
        let rest = s.skip(1);
        let l1 = line_prefix_len(rest, 1) as int;
        lemma_line_prefix_len_step(rest, n);
        lemma_line_prefix_len_le(rest, 1);
        assert(s.skip(1 + l1) =~= rest.skip(l1));
        assert(line_prefix_len(s, 1) == 1 + l1);
    }
}

/// A source with no more lines than requested is echoed whole: the
/// first-lines prefix is the entire content.
pub proof fn lemma_head_lines_whole_source(s: Seq<u8>, n: nat)
    requires
        split_lines(s).len() <= n,
    ensures
        line_prefix_len(s, n) == s.len(),
        s.take(line_prefix_len(s, n) as int) == s,
    decreases s.len(),
{
    if s.len() == 0 {
        assert(s.take(0) =~= s);
    } else {
        let l1 = line_prefix_len(s, 1) as int;
        lemma_line_prefix_len_le(s, 1);
        assert(l1 >= 1);
        let rest = s.skip(l1);
        assert(split_lines(s) == seq![s.take(l1)] + split_lines(rest));
        assert(split_lines(s).len() == 1 + split_lines(rest).len());
        lemma_line_prefix_len_step(s, n);
        lemma_head_lines_whole_source(rest, (n - 1) as nat);
        assert(line_prefix_len(s, n) == l1 + rest.len());
        assert(s.take(s.len() as int) =~= s);
    }
}

/// A source with at least `n` lines yields exactly its first `n` lines, each
/// with its original terminator: the first-lines prefix is the concatenation
/// of the first `n` entries of `split_lines`.
pub proof fn lemma_head_lines_exact(s: Seq<u8>, n: nat)
    requires
        n <= split_lines(s).len(),
    ensures
        s.take(line_prefix_len(s, n) as int) == split_lines(s).take(n as int).flatten(),
    decreases n,
{
    if n == 0 {
        assert(split_lines(s).take(0) =~= Seq::<Seq<u8>>::empty());
        assert(Seq::<Seq<u8>>::empty().flatten() =~= Seq::<u8>::empty());
        assert(s.take(0) =~= Seq::<u8>::empty());
    } else {
        assert(s.len() > 0);
        let l1 = line_prefix_len(s, 1) as int;
        lemma_line_prefix_len_le(s, 1);
        let first = s.take(l1);
        let rest = s.skip(l1);
        assert(split_lines(s) == seq![first] + split_lines(rest));
        lemma_line_prefix_len_step(s, n);
        lemma_head_lines_exact(rest, (n - 1) as nat);
        lemma_line_prefix_len_le(rest, (n - 1) as nat);
        let k = line_prefix_len(rest, (n - 1) as nat) as int;
        assert(s.take(l1 + k) =~= first + rest.take(k));
        let taken = split_lines(s).take(n as int);
        assert(taken =~= seq![first] + split_lines(rest).take(n - 1));
        assert(taken.first() == first);
        assert(taken.drop_first() =~= split_lines(rest).take(n - 1));
        assert(taken.flatten() == first + taken.drop_first().flatten());
    }
}

/// The smaller of the requested byte count and the content's length.
pub open spec fn byte_prefix_len(s: Seq<u8>, n: nat) -> nat {
    if n <= s.len() {
        n
    } else {
        s.len()
    }
}

/// The first `count` bytes of `content`; the whole content if it is shorter.
/// The result's length is exactly the smaller of `count` and the content's
/// length.
pub fn head_bytes(content: &Vec<u8>, count: usize) -> (r: Vec<u8>)
    ensures
        r@ == content@.take(byte_prefix_len(content@, count as nat) as int),
        r@.len() == byte_prefix_len(content@, count as nat),
{
    let k: usize = if count <= content.len() {
        count
    } else {
        content.len()
    };
    slice_to_vec(slice_subrange(content.as_slice(), 0, k))
}

} // verus!
