//! Output emission: the bytes a run writes to standard output, given the
//! configuration and what each source's open attempt yielded.

use vstd::prelude::*;
use vstd::string::StrSliceExecFns;
use vstd::string::StringSliceAdditionalSpecFns;
use vstd::utf8::encode_utf8;
use vstd::utf8::valid_utf8;
use crate::args::Config;
use crate::head::byte_prefix_len;
use crate::head::head_bytes;
use crate::head::head_lines;
use crate::head::line_prefix_len;

verus! {

/// The bytes of the text that `String::from_utf8_lossy` decodes from `b`.
pub uninterp spec fn lossy_utf8(b: Seq<u8>) -> Seq<u8>;

/// The bytes a byte-mode prefix displays as: valid UTF-8 passes through
/// unchanged, anything else has its invalid sequences replaced by the
/// replacement marker.
pub open spec fn lossy_spec(b: Seq<u8>) -> Seq<u8> {
    if valid_utf8(b) {
        b
    } else {
        lossy_utf8(b)
    }
}

/// Relies on `String::from_utf8_lossy`: it decodes the bytes as UTF-8 with
/// invalid sequences replaced by U+FFFD, and its documentation promises the
/// original bytes back unchanged when they are valid UTF-8. The result
/// depends on the input bytes alone, so `lossy_utf8` names the re-encoded
/// bytes of the decoded text.
#[verifier::external_body]
fn lossy_decode(b: &[u8]) -> (r: Vec<u8>)
    ensures
        r@ == lossy_utf8(b@),
        valid_utf8(b@) ==> r@ == b@,
{
    String::from_utf8_lossy(b).into_owned().into_bytes()
}

/// The header line `==> name <==` with its trailing newline.
pub open spec fn header_line_spec(name: Seq<char>) -> Seq<u8> {
    seq![61u8, 61u8, 62u8, 32u8] + encode_utf8(name) + seq![32u8, 60u8, 61u8, 61u8, 10u8]
}

/// The banner before a source's output: its header line, preceded by one
/// blank line for every source after the first.
pub open spec fn banner_spec(name: Seq<char>, first: bool) -> Seq<u8> {
    (if first {
        Seq::<u8>::empty()
    } else {
        seq![10u8]
    }) + header_line_spec(name)
}

/// The bytes one opened source contributes after any banner: the byte-mode
/// prefix decoded lossily when a byte count is configured, else the line-mode
/// prefix echoed verbatim.
pub open spec fn body_spec(cfg: Config, content: Seq<u8>) -> Seq<u8> {
    match cfg.bytes {
        Some(b) => lossy_spec(content.take(byte_prefix_len(content, b as nat) as int)),
        None => content.take(line_prefix_len(content, cfg.lines as nat) as int),
    }
}

/// Everything one opened source contributes to standard output: a banner
/// exactly when more than one source is configured, then the requested
/// prefix.
pub open spec fn source_block_spec(cfg: Config, file_num: int, content: Seq<u8>) -> Seq<u8> {
    if cfg.files@.len() > 1 {
        banner_spec(cfg.files@[file_num]@, file_num == 0) + body_spec(cfg, content)
    } else {
        body_spec(cfg, content)
    }
}

/// The output of the sources from number `i` on; a source that failed to
/// open (`None`) contributes nothing.
pub open spec fn render_from(cfg: Config, contents: Seq<Option<Seq<u8>>>, i: int) -> Seq<u8>
    decreases contents.len() - i,
{
    if i < 0 || i >= contents.len() {
        Seq::empty()
    } else {
        (match contents[i] {
            Some(c) => source_block_spec(cfg, i, c),
            None => Seq::<u8>::empty(),
        }) + render_from(cfg, contents, i + 1)
    }
}

/// All of standard output for one run.
pub open spec fn render_spec(cfg: Config, contents: Seq<Option<Seq<u8>>>) -> Seq<u8> {
    render_from(cfg, contents, 0)
}

/// Appends all of `data` to `out`.
fn push_bytes(out: &mut Vec<u8>, data: &Vec<u8>)
    ensures
        final(out)@ == old(out)@ + data@,
{
    proof {
        assert(old(out)@ + data@.take(0) =~= old(out)@);
    }
    let mut j: usize = 0;
    while j < data.len()
        invariant
            j <= data.len(),
            out@ == old(out)@ + data@.take(j as int),
        decreases data.len() - j,
    {
        out.push(data[j]);
        proof {
            assert(out@ =~= old(out)@ + data@.take(j as int + 1));
        }
        j = j + 1;
    }
    proof {
        assert(data@.take(data@.len() as int) =~= data@);
    }
}

/// Appends the banner for the source called `name` to `out`.
fn push_banner(out: &mut Vec<u8>, name: &String, first: bool)
    ensures
        final(out)@ == old(out)@ + banner_spec(name@, first),
{
    if !first {
        out.push(10u8);
    }
    out.push(61u8);
    out.push(61u8);
    out.push(62u8);
    out.push(32u8);
    let nb = name.as_str().as_bytes_vec();
    push_bytes(out, &nb);
    out.push(32u8);
    out.push(60u8);
    out.push(61u8);
    out.push(61u8);
    out.push(10u8);
    proof {
        assert(out@ =~= old(out)@ + banner_spec(name@, first));
    }
}

/// The bytes source number `file_num` contributes to standard output under
/// this configuration, its content having been read whole.
pub fn source_block(cfg: &Config, file_num: usize, content: &Vec<u8>) -> (r: Vec<u8>)
    requires
        file_num < cfg.files@.len(),
    ensures
        r@ == source_block_spec(*cfg, file_num as int, content@),
{
    let mut out: Vec<u8> = Vec::new();
    if cfg.files.len() > 1 {
        push_banner(&mut out, &cfg.files[file_num], file_num == 0);
    }
    let body: Vec<u8> = match cfg.bytes {
        Some(b) => {
            let prefix = head_bytes(content, b);
            let decoded = lossy_decode(prefix.as_slice());
            proof {
                assert(decoded@ == lossy_spec(prefix@));
            }
            decoded
        },
        None => head_lines(content, cfg.lines),
    };
    push_bytes(&mut out, &body);
    proof {
        assert(out@ =~= source_block_spec(*cfg, file_num as int, content@));
    }
    out
}

/// All of standard output for one run: each source's block in configured
/// order, where a source's entry holds its content if it opened, and nothing
/// if it did not.
pub fn render(cfg: &Config, contents: &Vec<Option<Vec<u8>>>) -> (r: Vec<u8>)
    requires
        contents@.len() == cfg.files@.len(),
    ensures
        r@ == render_spec(*cfg, contents.deep_view()),
{
    let ghost cv = contents.deep_view();
    let mut out: Vec<u8> = Vec::new();
    let mut i: usize = 0;
    proof {
        assert(cv.len() == contents@.len());
        assert(out@ + render_from(*cfg, cv, 0) =~= render_from(*cfg, cv, 0));
    }
    while i < contents.len()
        invariant
            i <= contents.len(),
            cv == contents.deep_view(),
            cv.len() == contents@.len(),
            render_spec(*cfg, cv) == out@ + render_from(*cfg, cv, i as int),
        decreases contents.len() - i,
    {
        let ghost out_pre = out@;
        match &contents[i] {
            Some(c) => {
                proof {
                    assert(cv[i as int] == contents@[i as int].deep_view());
                    assert(cv[i as int] matches Some(cs) && cs =~= c@);
                }
                let block = source_block(cfg, i, c);
                push_bytes(&mut out, &block);
            },
            None => {
                proof {
                    assert(cv[i as int] == contents@[i as int].deep_view());
                    assert(cv[i as int] is None);
                    assert(out_pre + Seq::<u8>::empty() =~= out_pre);
                }
            },
        }
        i = i + 1;
    }
    out
}

/// In byte mode a source's output holds exactly the smaller of the requested
/// byte count and the source's length — unless decoding substitutes a
/// replacement marker; with a valid UTF-8 prefix no substitution occurs and
/// the length is exactly that minimum.
pub proof fn lemma_byte_mode_output_length(cfg: Config, content: Seq<u8>, b: usize)
    requires
        cfg.bytes == Some(b),
        valid_utf8(content.take(byte_prefix_len(content, b as nat) as int)),
    ensures
        body_spec(cfg, content).len() == byte_prefix_len(content, b as nat),
{
}

/// With exactly one configured source, no banner is ever emitted: the whole
/// output is the source's requested prefix alone (and empty when that one
/// source failed to open).
pub proof fn lemma_single_source_no_banner(cfg: Config, contents: Seq<Option<Seq<u8>>>)
    requires
        cfg.files@.len() == 1,
        contents.len() == 1,
    ensures
        render_spec(cfg, contents) == match contents[0] {
            Some(c) => body_spec(cfg, c),
            None => Seq::<u8>::empty(),
        },
{
    assert(render_from(cfg, contents, 1) =~= Seq::<u8>::empty());
    match contents[0] {
        Some(c) => {
            assert(source_block_spec(cfg, 0, c) == body_spec(cfg, c));
            assert(body_spec(cfg, c) + Seq::<u8>::empty() =~= body_spec(cfg, c));
        },
        None => {
            assert(Seq::<u8>::empty() + Seq::<u8>::empty() =~= Seq::<u8>::empty());
        },
    }
}

/// With two or more configured sources, every opened source's block is its
/// header line `==> name <==`, preceded — for every source after the first —
/// by exactly one blank line, followed by the requested prefix.
pub proof fn lemma_multi_source_banner(cfg: Config, file_num: int, content: Seq<u8>)
    requires
        cfg.files@.len() >= 2,
        0 <= file_num < cfg.files@.len(),
    ensures
        source_block_spec(cfg, file_num, content) == (if file_num == 0 {
            Seq::<u8>::empty()
        } else {
            seq![10u8]
        }) + header_line_spec(cfg.files@[file_num]@) + body_spec(cfg, content),
{
    let lead: Seq<u8> = if file_num == 0 {
        Seq::<u8>::empty()
    } else {
        seq![10u8]
    };
    let header = header_line_spec(cfg.files@[file_num]@);
    let body = body_spec(cfg, content);
    assert((lead + header) + body =~= lead + header + body);
}

} // verus!
