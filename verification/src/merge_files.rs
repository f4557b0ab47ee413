use crate::split_file::lemma_dv_edges;
use crate::utils::{compute_hash, fingerprint_of, LineFormatter};
use vstd::prelude::*;

verus! {

/// Decimal rendering of a nonnegative number.
pub open spec fn dec_repr(n: int) -> Seq<u8>
    decreases n
        when n >= 0
{
    if n < 10 {
        seq![(48 + n) as u8]
    } else {
        dec_repr(n / 10) + seq![(48 + n % 10) as u8]
    }
}

/// Renders a number in decimal.
fn dec_bytes(n: usize) -> (r: Vec<u8>)
    ensures
        r@ == dec_repr(n as int),
    decreases n,
{
    if n < 10 {
        let mut v: Vec<u8> = Vec::new();
        v.push(48 + (n as u8));
        proof {
            assert(v@ =~= dec_repr(n as int));
        }
        v
    } else {
        let mut v = dec_bytes(n / 10);
        v.push(48 + ((n % 10) as u8));
        proof {
            assert(v@ =~= dec_repr(n as int));
        }
        v
    }
}

/// The separator banner: twenty equals signs.
pub open spec fn eq_banner() -> Seq<u8> {
    Seq::new(20, |i: int| 61u8)
}

/// Builds the separator banner.
fn eq_banner_exec() -> (r: Vec<u8>)
    ensures
        r@ == eq_banner(),
{
    let mut r: Vec<u8> = Vec::new();
    let mut i: usize = 0;
    while i < 20
        invariant
            i <= 20,
            r@.len() == i,
            forall|k: int| 0 <= k < i ==> r@[k] == 61u8,
        decreases 20 - i,
    {
        r.push(61u8);
        i = i + 1;
    }
    proof {
        assert(r@ =~= eq_banner());
    }
    r
}

/// The text of a `setup` instruction for the given base directory.
pub open spec fn setup_text(base: Seq<u8>) -> Seq<u8> {
    seq![
        109u8,
        101u8,
        114u8,
        99u8,
        104u8,
        58u8,
        58u8,
        115u8,
        101u8,
        116u8,
        117u8,
        112u8,
        58u8,
        32u8,
        60u8,
    ] + base + seq![62u8]
}

/// Builds the text of a `setup` instruction.
fn setup_text_exec(base: &Vec<u8>) -> (r: Vec<u8>)
    ensures
        r@ == setup_text(base@),
{
    let mut r: Vec<u8> = Vec::new();
    r.push(109u8);
    r.push(101u8);
    r.push(114u8);
    r.push(99u8);
    r.push(104u8);
    r.push(58u8);
    r.push(58u8);
    r.push(115u8);
    r.push(101u8);
    r.push(116u8);
    r.push(117u8);
    r.push(112u8);
    r.push(58u8);
    r.push(32u8);
    r.push(60u8);
    r.extend_from_slice(base.as_slice());
    r.push(62u8);
    proof {
        assert(r@ =~= setup_text(base@));
    }
    r
}

/// The text of an `existing-file` instruction: path, index, fingerprint.
pub open spec fn existing_text(path: Seq<u8>, idx: int, hash: Seq<u8>) -> Seq<u8> {
    seq![
        109u8,
        101u8,
        114u8,
        99u8,
        104u8,
        58u8,
        58u8,
        101u8,
        120u8,
        105u8,
        115u8,
        116u8,
        105u8,
        110u8,
        103u8,
        45u8,
        102u8,
        105u8,
        108u8,
        101u8,
        58u8,
        32u8,
        60u8,
    ] + path + seq![62u8, 32u8, 60u8] + dec_repr(idx) + seq![62u8, 32u8, 60u8] + hash + seq![62u8]
}

/// Builds the text of an `existing-file` instruction.
fn existing_text_exec(path: &Vec<u8>, idx: usize, hash: &Vec<u8>) -> (r: Vec<u8>)
    ensures
        r@ == existing_text(path@, idx as int, hash@),
{
    let mut r: Vec<u8> = Vec::new();
    r.push(109u8);
    r.push(101u8);
    r.push(114u8);
    r.push(99u8);
    r.push(104u8);
    r.push(58u8);
    r.push(58u8);
    r.push(101u8);
    r.push(120u8);
    r.push(105u8);
    r.push(115u8);
    r.push(116u8);
    r.push(105u8);
    r.push(110u8);
    r.push(103u8);
    r.push(45u8);
    r.push(102u8);
    r.push(105u8);
    r.push(108u8);
    r.push(101u8);
    r.push(58u8);
    r.push(32u8);
    r.push(60u8);
    r.extend_from_slice(path.as_slice());
    r.push(62u8);
    r.push(32u8);
    r.push(60u8);
    let d = dec_bytes(idx);
    r.extend_from_slice(d.as_slice());
    r.push(62u8);
    r.push(32u8);
    r.push(60u8);
    r.extend_from_slice(hash.as_slice());
    r.push(62u8);
    proof {
        assert(r@ =~= existing_text(path@, idx as int, hash@));
    }
    r
}

/// The text of a `file` instruction: path and index, with the trailing
/// colon that announces re-embedded content.
pub open spec fn file_text(path: Seq<u8>, idx: int, colon: bool) -> Seq<u8> {
    seq![
        109u8,
        101u8,
        114u8,
        99u8,
        104u8,
        58u8,
        58u8,
        102u8,
        105u8,
        108u8,
        101u8,
        58u8,
        32u8,
        60u8,
    ] + path + seq![62u8, 32u8, 60u8] + dec_repr(idx) + seq![62u8] + if colon {
        seq![58u8]
    } else {
        Seq::<u8>::empty()
    }
}

/// Builds the text of a `file` instruction.
fn file_text_exec(path: &Vec<u8>, idx: usize, colon: bool) -> (r: Vec<u8>)
    ensures
        r@ == file_text(path@, idx as int, colon),
{
    let mut r: Vec<u8> = Vec::new();
    r.push(109u8);
    r.push(101u8);
    r.push(114u8);
    r.push(99u8);
    r.push(104u8);
    r.push(58u8);
    r.push(58u8);
    r.push(102u8);
    r.push(105u8);
    r.push(108u8);
    r.push(101u8);
    r.push(58u8);
    r.push(32u8);
    r.push(60u8);
    r.extend_from_slice(path.as_slice());
    r.push(62u8);
    r.push(32u8);
    r.push(60u8);
    let d = dec_bytes(idx);
    r.extend_from_slice(d.as_slice());
    r.push(62u8);
    if colon {
        r.push(58u8);
    }
    proof {
        assert(r@ =~= file_text(path@, idx as int, colon));
    }
    r
}

/// The `existing-file` lines for the entries from position `i` on.  An
/// entry is a relative path and the file's content; its position is its
/// identity.
pub open spec fn existing_lines(
    fmt: LineFormatter,
    entries: Seq<(Seq<u8>, Seq<u8>)>,
    i: int,
) -> Seq<u8>
    decreases entries.len() - i
        when 0 <= i
{
    if i >= entries.len() {
        Seq::<u8>::empty()
    } else {
        fmt.line_of(existing_text(entries[i].0, i, fingerprint_of(entries[i].1)))
            + existing_lines(fmt, entries, i + 1)
    }
}

/// The `file` sections for the entries from position `i` on: the
/// instruction line and, unless content is elided, the content followed by
/// a newline.
pub open spec fn file_sections(
    fmt: LineFormatter,
    entries: Seq<(Seq<u8>, Seq<u8>)>,
    i: int,
    without_content: bool,
) -> Seq<u8>
    decreases entries.len() - i
        when 0 <= i
{
    if i >= entries.len() {
        Seq::<u8>::empty()
    } else {
        fmt.line_of(file_text(entries[i].0, i, !without_content)) + (if without_content {
            Seq::<u8>::empty()
        } else {
            entries[i].1 + seq![10u8]
        }) + file_sections(fmt, entries, i + 1, without_content)
    }
}

/// The whole merged document for the given entries: banner, `setup` line,
/// one `existing-file` line per entry, banner, a blank line, then one
/// `file` section per entry.
pub open spec fn merge_spec(
    fmt: LineFormatter,
    base: Seq<u8>,
    entries: Seq<(Seq<u8>, Seq<u8>)>,
    without_content: bool,
) -> Seq<u8> {
    fmt.line_of(eq_banner()) + fmt.line_of(setup_text(base)) + existing_lines(fmt, entries, 0)
        + fmt.line_of(eq_banner()) + seq![10u8] + file_sections(fmt, entries, 0, without_content)
}

/// Writes the merged document for the entries (each a relative path and
/// that file's content) onto `out`: the header recording each file's
/// identity and fingerprint, then each file's instruction line with its
/// content re-embedded unless `without_content` asks for its elision.
pub fn merge_files(
    entries: &Vec<(Vec<u8>, Vec<u8>)>,
    out: &mut Vec<u8>,
    formatter: &LineFormatter,
    base_dir: &Vec<u8>,
    without_content: bool,
)
    ensures
        final(out)@ == old(out)@ + merge_spec(
            *formatter,
            base_dir@,
            entries.deep_view(),
            without_content,
        ),
{
    let ghost o0 = old(out)@;
    let ghost fmt = *formatter;
    let ghost dv = entries.deep_view();
    proof {
        lemma_dv_edges(*entries);
    }
    let banner = eq_banner_exec();
    formatter.writeln(out, banner.as_slice());
    let st = setup_text_exec(base_dir);
    formatter.writeln(out, st.as_slice());
    let ghost s12 = fmt.line_of(eq_banner()) + fmt.line_of(setup_text(base_dir@));
    proof {
        assert(out@ =~= o0 + s12);
    }
    let mut i: usize = 0;
    while i < entries.len()
        invariant
            i <= entries@.len(),
            dv == entries.deep_view(),
            dv.len() == entries@.len(),
            forall|j: int| 0 <= j < entries@.len() ==> #[trigger] dv[j] == (
                entries@[j].0@,
                entries@[j].1@,
            ),
            fmt == *formatter,
            out@ + existing_lines(fmt, dv, i as int) == o0 + s12 + existing_lines(fmt, dv, 0),
        decreases entries@.len() - i,
    {
        let ghost opre = out@;
        let hash = compute_hash(entries[i].1.as_slice());
        let text = existing_text_exec(&entries[i].0, i, &hash);
        formatter.writeln(out, text.as_slice());
        proof {
            assert(text@ == existing_text(dv[i as int].0, i as int, fingerprint_of(
                dv[i as int].1,
            )));
            assert(out@ + existing_lines(fmt, dv, i as int + 1) =~= opre + existing_lines(
                fmt,
                dv,
                i as int,
            ));
        }
        i = i + 1;
    }
    let ghost e_done = o0 + s12 + existing_lines(fmt, dv, 0);
    proof {
        assert(out@ + Seq::<u8>::empty() =~= out@);
        assert(out@ == e_done);
    }
    let banner2 = eq_banner_exec();
    formatter.writeln(out, banner2.as_slice());
    out.push(10u8);
    let ghost s34 = fmt.line_of(eq_banner()) + seq![10u8];
    proof {
        assert(out@ =~= e_done + s34);
    }
    let ghost f_base = e_done + s34;
    let mut i2: usize = 0;
    while i2 < entries.len()
        invariant
            i2 <= entries@.len(),
            dv == entries.deep_view(),
            dv.len() == entries@.len(),
            forall|j: int| 0 <= j < entries@.len() ==> #[trigger] dv[j] == (
                entries@[j].0@,
                entries@[j].1@,
            ),
            fmt == *formatter,
            out@ + file_sections(fmt, dv, i2 as int, without_content) == f_base + file_sections(
                fmt,
                dv,
                0,
                without_content,
            ),
        decreases entries@.len() - i2,
    {
        let ghost opre = out@;
        let text = file_text_exec(&entries[i2].0, i2, !without_content);
        formatter.writeln(out, text.as_slice());
        if !without_content {
            out.extend_from_slice(entries[i2].1.as_slice());
            out.push(10u8);
        }
        proof {
            assert(text@ == file_text(dv[i2 as int].0, i2 as int, !without_content));
            assert(out@ + file_sections(fmt, dv, i2 as int + 1, without_content) =~= opre
                + file_sections(fmt, dv, i2 as int, without_content));
        }
        i2 = i2 + 1;
    }
    proof {
        assert(out@ + Seq::<u8>::empty() =~= out@);
        assert(out@ == f_base + file_sections(fmt, dv, 0, without_content));
        assert(out@ =~= o0 + merge_spec(fmt, base_dir@, dv, without_content));
    }
}

} // verus!
