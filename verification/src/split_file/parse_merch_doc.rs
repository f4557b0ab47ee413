use crate::split_file::parsed_merch_doc::{
    lemma_upd_pos, unique_updated_indices, upd_pos, DocV, ExRecV, ExistingFileInfo, ParsedMerchDoc,
    UpdRecV, UpdatedFileInfo,
};
use crate::utils::lemma_dv_bytes;
use vstd::pervasive::VecAdditionalExecFns;
use vstd::prelude::*;

verus! {

/// Why a document failed to parse: no `setup` instruction anywhere, or an
/// instruction line (at the given byte offset) whose arguments do not fit
/// its command.
#[derive(Debug, Clone, Copy, PartialEq, Eq)]
pub enum ParseError {
    MissingSetup,
    MalformedInstruction(usize),
}

// ---------------------------------------------------------------------------
// Scanning primitives over the document's bytes.
// ---------------------------------------------------------------------------

/// Position of the next newline at or after `p`, or the text's length.
pub open spec fn line_end(text: Seq<u8>, p: int) -> int
    decreases text.len() - p
        when 0 <= p
{
    if p >= text.len() {
        text.len() as int
    } else if text[p] == 10 {
        p
    } else {
        line_end(text, p + 1)
    }
}

/// `line_end` stays between `p` and the text's length and stops on a
/// newline.
pub proof fn lemma_line_end(text: Seq<u8>, p: int)
    requires
        0 <= p <= text.len(),
    ensures
        p <= line_end(text, p) <= text.len(),
        line_end(text, p) < text.len() ==> text[line_end(text, p)] == 10,
    decreases text.len() - p,
{
    if p < text.len() && text[p] != 10 {
        lemma_line_end(text, p + 1);
    }
}

/// Position of the first byte at or after `p` that is not a space or tab,
/// or the line's length.
pub open spec fn skip_ws(line: Seq<u8>, p: int) -> int
    decreases line.len() - p
        when 0 <= p
{
    if p >= line.len() {
        line.len() as int
    } else if line[p] == 32 || line[p] == 9 {
        skip_ws(line, p + 1)
    } else {
        p
    }
}

/// `skip_ws` stays between `p` and the line's length.
pub proof fn lemma_skip_ws(line: Seq<u8>, p: int)
    requires
        0 <= p <= line.len(),
    ensures
        p <= skip_ws(line, p) <= line.len(),
    decreases line.len() - p,
{
    if p < line.len() && (line[p] == 32 || line[p] == 9) {
        lemma_skip_ws(line, p + 1);
    }
}

/// Position of the next closing angle bracket at or after `p`, or the
/// line's length.
pub open spec fn gt_pos(line: Seq<u8>, p: int) -> int
    decreases line.len() - p
        when 0 <= p
{
    if p >= line.len() {
        line.len() as int
    } else if line[p] == 62 {
        p
    } else {
        gt_pos(line, p + 1)
    }
}

/// `gt_pos` stays between `p` and the line's length.
pub proof fn lemma_gt_pos(line: Seq<u8>, p: int)
    requires
        0 <= p <= line.len(),
    ensures
        p <= gt_pos(line, p) <= line.len(),
    decreases line.len() - p,
{
    if p < line.len() && line[p] != 62 {
        lemma_gt_pos(line, p + 1);
    }
}

/// A byte a command name may consist of: an ASCII letter, digit, or hyphen.
pub open spec fn is_cmd_byte(b: u8) -> bool {
    (48 <= b <= 57) || (65 <= b <= 90) || (97 <= b <= 122) || b == 45
}

/// Position of the first byte at or after `p` that cannot belong to a
/// command name, or the line's length.
pub open spec fn cmd_end(line: Seq<u8>, p: int) -> int
    decreases line.len() - p
        when 0 <= p
{
    if p >= line.len() {
        line.len() as int
    } else if is_cmd_byte(line[p]) {
        cmd_end(line, p + 1)
    } else {
        p
    }
}

/// The instruction marker `merch::`.
pub open spec fn marker() -> Seq<u8> {
    seq![109u8, 101u8, 114u8, 99u8, 104u8, 58u8, 58u8]
}

/// Whether the marker occurs at position `i` of the line.
pub open spec fn is_marker_at(line: Seq<u8>, i: int) -> bool {
    i + 7 <= line.len() && line.subrange(i, i + 7) == marker()
}

/// Position of the first occurrence of the marker at or after `i`, or the
/// line's length.
pub open spec fn marker_pos(line: Seq<u8>, i: int) -> int
    decreases line.len() - i
        when 0 <= i
{
    if i + 7 > line.len() {
        line.len() as int
    } else if is_marker_at(line, i) {
        i
    } else {
        marker_pos(line, i + 1)
    }
}

/// `marker_pos` stays between `i` and the line's length, and lands on a
/// marker when it is not the length.
pub proof fn lemma_marker_pos(line: Seq<u8>, i: int)
    requires
        0 <= i <= line.len(),
    ensures
        i <= marker_pos(line, i) <= line.len(),
        marker_pos(line, i) < line.len() ==> is_marker_at(line, marker_pos(line, i)),
    decreases line.len() - i,
{
    if i + 7 > line.len() {
    } else if is_marker_at(line, i) {
    } else {
        lemma_marker_pos(line, i + 1);
    }
}

// ---------------------------------------------------------------------------
// The instruction grammar.
// ---------------------------------------------------------------------------

/// The argument list starting at `pos`: angle-bracketed spans separated by
/// blanks.  Yields the arguments and the position directly after the last
/// closing bracket (or `pos` itself when there is no argument).
pub open spec fn parse_args(line: Seq<u8>, pos: int) -> (Seq<Seq<u8>>, int)
    decreases line.len() - pos
        when 0 <= pos <= line.len()
{
    let s = skip_ws(line, pos);
    if s < line.len() && line[s] == 60 {
        let g = gt_pos(line, s + 1);
        if g < line.len() {
            proof {
                lemma_skip_ws(line, pos);
                lemma_gt_pos(line, s + 1);
            }
            let r = parse_args(line, g + 1);
            (
                seq![line.subrange(s + 1, g)] + r.0,
                if r.0.len() == 0 {
                    g + 1
                } else {
                    r.1
                },
            )
        } else {
            (Seq::<Seq<u8>>::empty(), pos)
        }
    } else {
        (Seq::<Seq<u8>>::empty(), pos)
    }
}

/// An ASCII decimal digit.
pub open spec fn is_digit(b: u8) -> bool {
    48 <= b <= 57
}

/// Every byte of the sequence is a digit.
pub open spec fn all_digits(s: Seq<u8>) -> bool {
    forall|i: int| 0 <= i < s.len() ==> is_digit(#[trigger] s[i])
}

/// The number a digit sequence denotes.
pub open spec fn dec_val(s: Seq<u8>) -> int
    decreases s.len(),
{
    if s.len() == 0 {
        0
    } else {
        dec_val(s.drop_last()) * 10 + (s.last() - 48)
    }
}

/// The digits of a number argument, behind at most one leading plus sign.
pub open spec fn num_body(s: Seq<u8>) -> Seq<u8> {
    if s.len() > 0 && s[0] == 43 {
        s.skip(1)
    } else {
        s
    }
}

/// The index an argument denotes: a nonempty digit sequence (after at most
/// one leading plus sign) whose value fits the machine's word.
pub open spec fn parse_index(s: Seq<u8>) -> Option<int> {
    let d = num_body(s);
    if d.len() > 0 && all_digits(d) && dec_val(d) <= usize::MAX {
        Some(dec_val(d))
    } else {
        None
    }
}

/// The `setup` command name.
pub open spec fn cmd_setup() -> Seq<u8> {
    seq![115u8, 101u8, 116u8, 117u8, 112u8]
}

/// The `existing-file` command name.
pub open spec fn cmd_existing_file() -> Seq<u8> {
    seq![
        101u8,
        120u8,
        105u8,
        115u8,
        116u8,
        105u8,
        110u8,
        103u8,
        45u8,
        102u8,
        105u8,
        108u8,
        101u8,
    ]
}

/// The `file` command name.
pub open spec fn cmd_file() -> Seq<u8> {
    seq![102u8, 105u8, 108u8, 101u8]
}

/// Reads one line (already stripped of its carriage return) as an
/// instruction: the first marker occurrence, immediately followed by a
/// nonempty command name and a colon, then the argument list.  The flag
/// says whether a bare colon stands immediately after the argument list.
/// A line without that shape is no instruction.
pub open spec fn classify_line(line: Seq<u8>) -> Option<(Seq<u8>, Seq<Seq<u8>>, bool)> {
    let m = marker_pos(line, 0);
    if m >= line.len() {
        None
    } else {
        let cs = m + 7;
        let ce = cmd_end(line, cs);
        if ce == cs || ce >= line.len() || line[ce] != 58 {
            None
        } else {
            let r = parse_args(line, ce + 1);
            Some(
                (
                    line.subrange(cs, ce),
                    r.0,
                    r.0.len() > 0 && r.1 < line.len() && line[r.1] == 58,
                ),
            )
        }
    }
}

// ---------------------------------------------------------------------------
// The scan's state and its transitions.
// ---------------------------------------------------------------------------

/// The scan's state: the base directory seen so far, the records collected,
/// and the pending content capture (the awaiting file index and the span's
/// start), if a `file:` instruction opened one.
pub ghost struct PStateV {
    pub base: Option<Seq<u8>>,
    pub existing: Seq<ExRecV>,
    pub updated: Seq<UpdRecV>,
    pub cap: Option<(int, int)>,
}

/// The initial scan state.
pub open spec fn init_state() -> PStateV {
    PStateV {
        base: None,
        existing: Seq::<ExRecV>::empty(),
        updated: Seq::<UpdRecV>::empty(),
        cap: None,
    }
}

/// Where a capture that spans `[start, end0)` really ends: at most one
/// trailing newline and then at most one trailing carriage return are left
/// out, so the captured content excludes the line break that separated it
/// from the next instruction line.
pub open spec fn trim_end(text: Seq<u8>, start: int, end0: int) -> int {
    let e1 = if end0 > start && text[end0 - 1] == 10 {
        end0 - 1
    } else {
        end0
    };
    if e1 > start && text[e1 - 1] == 13 {
        e1 - 1
    } else {
        e1
    }
}

/// Stores captured content on the first updated record with the given
/// index, leaving the rest of the record alone.
pub open spec fn set_content(s: Seq<UpdRecV>, idx: int, c: Seq<u8>) -> Seq<UpdRecV> {
    let p = upd_pos(s, idx);
    if p < s.len() {
        s.update(p, UpdRecV { idx: s[p].idx, new_path: s[p].new_path, content: Some(c) })
    } else {
        s
    }
}

/// Registers an updated record, replacing the record already carrying the
/// same index if there is one.
pub open spec fn upsert_updated(s: Seq<UpdRecV>, r: UpdRecV) -> Seq<UpdRecV> {
    let p = upd_pos(s, r.idx);
    if p < s.len() {
        s.update(p, r)
    } else {
        s.push(r)
    }
}

/// Closes a pending capture at boundary `end0`: the captured span, trimmed
/// of the separating line break, becomes the awaiting record's content.
pub open spec fn close_cap(st: PStateV, text: Seq<u8>, end0: int) -> PStateV {
    match st.cap {
        None => st,
        Some((idx, start)) => PStateV {
            base: st.base,
            existing: st.existing,
            updated: set_content(
                st.updated,
                idx,
                text.subrange(start, trim_end(text, start, end0)),
            ),
            cap: None,
        },
    }
}

/// Applies one recognized instruction to the state (whose capture is
/// already closed).  `cap_start` is where content would begin: right after
/// this line's newline.  `at` is the line's start, reported on a malformed
/// instruction.
pub open spec fn apply_cmd(
    st: PStateV,
    cmd: Seq<u8>,
    args: Seq<Seq<u8>>,
    colon: bool,
    cap_start: int,
    at: int,
) -> Result<PStateV, ParseError> {
    if cmd == cmd_setup() {
        if args.len() < 1 {
            Err(ParseError::MalformedInstruction(at as usize))
        } else {
            Ok(PStateV { base: Some(args[0]), existing: st.existing, updated: st.updated, cap: None })
        }
    } else if cmd == cmd_existing_file() {
        if args.len() < 3 {
            Err(ParseError::MalformedInstruction(at as usize))
        } else {
            match parse_index(args[1]) {
                None => Err(ParseError::MalformedInstruction(at as usize)),
                Some(ix) => Ok(
                    PStateV {
                        base: st.base,
                        existing: st.existing.push(
                            ExRecV { idx: ix, path: args[0], hash: args[2] },
                        ),
                        updated: st.updated,
                        cap: None,
                    },
                ),
            }
        }
    } else if cmd == cmd_file() {
        if args.len() < 2 {
            Err(ParseError::MalformedInstruction(at as usize))
        } else {
            match parse_index(args[1]) {
                None => Err(ParseError::MalformedInstruction(at as usize)),
                Some(ix) => Ok(
                    PStateV {
                        base: st.base,
                        existing: st.existing,
                        updated: upsert_updated(
                            st.updated,
                            UpdRecV { idx: ix, new_path: args[0], content: None },
                        ),
                        cap: if colon {
                            Some((ix, cap_start))
                        } else {
                            None
                        },
                    },
                ),
            }
        }
    } else {
        Ok(st)
    }
}

/// The scan from position `p` on: line by line, closing a pending capture
/// at each instruction line, applying the instruction, and closing any
/// capture left open at the end of the document.  A line the document does
/// not terminate with a newline is never an instruction line.
pub open spec fn parse_from(text: Seq<u8>, p: int, st: PStateV) -> Result<PStateV, ParseError>
    decreases text.len() - p
        when 0 <= p
{
    if p >= text.len() {
        Ok(close_cap(st, text, text.len() as int))
    } else {
        let e = line_end(text, p);
        if e >= text.len() {
            Ok(close_cap(st, text, text.len() as int))
        } else {
            proof {
                lemma_line_end(text, p);
            }
            let raw = text.subrange(p, e);
            let line = if raw.len() > 0 && raw[raw.len() - 1] == 13 {
                raw.drop_last()
            } else {
                raw
            };
            match classify_line(line) {
                None => parse_from(text, e + 1, st),
                Some((cmd, args, colon)) => {
                    let st1 = close_cap(st, text, p);
                    match apply_cmd(st1, cmd, args, colon, e + 1, p) {
                        Err(er) => Err(er),
                        Ok(st2) => parse_from(text, e + 1, st2),
                    }
                },
            }
        }
    }
}

/// What parsing a whole document yields: the scanned records under the
/// base directory the `setup` instruction named, an error on a malformed
/// instruction, and `MissingSetup` when no `setup` instruction occurred.
pub open spec fn parse_spec(text: Seq<u8>) -> Result<DocV, ParseError> {
    match parse_from(text, 0, init_state()) {
        Err(e) => Err(e),
        Ok(st) => match st.base {
            None => Err(ParseError::MissingSetup),
            Some(b) => Ok(DocV { base_path: b, existing: st.existing, updated: st.updated }),
        },
    }
}

// ---------------------------------------------------------------------------
// The executable scanner.
// ---------------------------------------------------------------------------

/// Copies the byte range `[a, b)` of the text.
fn copy_range(text: &[u8], a: usize, b: usize) -> (r: Vec<u8>)
    requires
        a <= b <= text@.len(),
    ensures
        r@ == text@.subrange(a as int, b as int),
{
    let s = vstd::slice::slice_subrange(text, a, b);
    vstd::slice::slice_to_vec(s)
}

/// Finds the end of the line starting at `p`.
fn line_end_exec(text: &[u8], p: usize) -> (e: usize)
    requires
        p <= text@.len(),
    ensures
        e as int == line_end(text@, p as int),
        p <= e <= text@.len(),
{
    let ghost t = text@;
    let mut i: usize = p;
    while i < text.len()
        invariant
            p <= i <= t.len(),
            t == text@,
            line_end(t, p as int) == line_end(t, i as int),
        decreases t.len() - i,
    {
        if text[i] == 10 {
            return i;
        }
        i = i + 1;
    }
    i
}

/// Whether the marker occurs at position `i`.
fn is_marker_at_exec(line: &Vec<u8>, i: usize) -> (r: bool)
    requires
        i + 7 <= line@.len(),
    ensures
        r == is_marker_at(line@, i as int),
{
    let n = line.len();
    let r = line[i] == 109 && line[i + 1] == 101 && line[i + 2] == 114 && line[i + 3] == 99
        && line[i + 4] == 104 && line[i + 5] == 58 && line[i + 6] == 58;
    proof {
        let s = line@.subrange(i as int, i as int + 7);
        if r {
            assert(s =~= marker());
        } else {
            if is_marker_at(line@, i as int) {
                assert(line@[i as int] == s[0]);
                assert(line@[i as int + 1] == s[1]);
                assert(line@[i as int + 2] == s[2]);
                assert(line@[i as int + 3] == s[3]);
                assert(line@[i as int + 4] == s[4]);
                assert(line@[i as int + 5] == s[5]);
                assert(line@[i as int + 6] == s[6]);
            }
        }
    }
    r
}

/// Finds the first occurrence of the marker in the line.
fn marker_pos_exec(line: &Vec<u8>) -> (m: usize)
    ensures
        m as int == marker_pos(line@, 0),
        m <= line@.len(),
{
    let mut i: usize = 0;
    while line.len() >= 7 && i <= line.len() - 7
        invariant
            i <= line@.len(),
            marker_pos(line@, 0) == marker_pos(line@, i as int),
        decreases line@.len() - i,
    {
        if is_marker_at_exec(line, i) {
            return i;
        }
        i = i + 1;
    }
    line.len()
}

/// Finds the end of a command name starting at `p`.
fn cmd_end_exec(line: &Vec<u8>, p: usize) -> (e: usize)
    requires
        p <= line@.len(),
    ensures
        e as int == cmd_end(line@, p as int),
        p <= e <= line@.len(),
{
    let mut i: usize = p;
    while i < line.len()
        invariant
            p <= i <= line@.len(),
            cmd_end(line@, p as int) == cmd_end(line@, i as int),
        decreases line@.len() - i,
    {
        let b = line[i];
        if !((48 <= b && b <= 57) || (65 <= b && b <= 90) || (97 <= b && b <= 122) || b == 45) {
            return i;
        }
        i = i + 1;
    }
    i
}

/// Skips blanks starting at `p`.
fn skip_ws_exec(line: &Vec<u8>, p: usize) -> (e: usize)
    requires
        p <= line@.len(),
    ensures
        e as int == skip_ws(line@, p as int),
        p <= e <= line@.len(),
{
    let mut i: usize = p;
    while i < line.len()
        invariant
            p <= i <= line@.len(),
            skip_ws(line@, p as int) == skip_ws(line@, i as int),
        decreases line@.len() - i,
    {
        let b = line[i];
        if !(b == 32 || b == 9) {
            return i;
        }
        i = i + 1;
    }
    i
}

/// Finds the next closing angle bracket at or after `p`.
fn gt_pos_exec(line: &Vec<u8>, p: usize) -> (e: usize)
    requires
        p <= line@.len(),
    ensures
        e as int == gt_pos(line@, p as int),
        p <= e <= line@.len(),
{
    let mut i: usize = p;
    while i < line.len()
        invariant
            p <= i <= line@.len(),
            gt_pos(line@, p as int) == gt_pos(line@, i as int),
        decreases line@.len() - i,
    {
        if line[i] == 62 {
            return i;
        }
        i = i + 1;
    }
    i
}

/// Reads the argument list starting at `pos`.
fn parse_args_exec(line: &Vec<u8>, pos: usize) -> (r: (Vec<Vec<u8>>, usize))
    requires
        pos <= line@.len(),
    ensures
        r.0.deep_view() == parse_args(line@, pos as int).0,
        r.1 as int == parse_args(line@, pos as int).1,
    decreases line@.len() - pos,
{
    let s = skip_ws_exec(line, pos);
    if s < line.len() && line[s] == 60 {
        let g = gt_pos_exec(line, s + 1);
        if g < line.len() {
            let arg = copy_range(line.as_slice(), s + 1, g);
            let (mut rest, after) = parse_args_exec(line, g + 1);
            let ghost rest_dv = rest.deep_view();
            let rest_was_empty = rest.len() == 0;
            rest.insert(0, arg);
            let after2 = if rest_was_empty {
                g + 1
            } else {
                after
            };
            proof {
                lemma_dv_bytes(rest@[0]);
                assert(rest.deep_view() =~= seq![line@.subrange(s + 1, g as int)] + rest_dv);
            }
            return (rest, after2);
        }
        let none1: Vec<Vec<u8>> = Vec::new();
        proof {
            assert(none1.deep_view() =~= Seq::<Seq<u8>>::empty());
        }
        return (none1, pos);
    }
    let none2: Vec<Vec<u8>> = Vec::new();
    proof {
        assert(none2.deep_view() =~= Seq::<Seq<u8>>::empty());
    }
    (none2, pos)
}

/// Whether the command name is `setup`.
fn is_setup_cmd(c: &Vec<u8>) -> (r: bool)
    ensures
        r == (c@ == cmd_setup()),
{
    if c.len() != 5 {
        return false;
    }
    let r = c[0] == 115 && c[1] == 101 && c[2] == 116 && c[3] == 117 && c[4] == 112;
    proof {
        if r {
            assert(c@ =~= cmd_setup());
        } else {
            if c@ == cmd_setup() {
                assert(c@[0] == 115 && c@[1] == 101 && c@[2] == 116 && c@[3] == 117 && c@[4]
                    == 112);
            }
        }
    }
    r
}

/// Whether the command name is `existing-file`.
fn is_existing_cmd(c: &Vec<u8>) -> (r: bool)
    ensures
        r == (c@ == cmd_existing_file()),
{
    if c.len() != 13 {
        return false;
    }
    let r = c[0] == 101 && c[1] == 120 && c[2] == 105 && c[3] == 115 && c[4] == 116 && c[5] == 105
        && c[6] == 110 && c[7] == 103 && c[8] == 45 && c[9] == 102 && c[10] == 105 && c[11] == 108
        && c[12] == 101;
    proof {
        if r {
            assert(c@ =~= cmd_existing_file());
        } else {
            if c@ == cmd_existing_file() {
                assert(c@[0] == 101 && c@[1] == 120 && c@[2] == 105 && c@[3] == 115 && c@[4] == 116
                    && c@[5] == 105 && c@[6] == 110 && c@[7] == 103 && c@[8] == 45 && c@[9] == 102
                    && c@[10] == 105 && c@[11] == 108 && c@[12] == 101);
            }
        }
    }
    r
}

/// Whether the command name is `file`.
fn is_file_cmd(c: &Vec<u8>) -> (r: bool)
    ensures
        r == (c@ == cmd_file()),
{
    if c.len() != 4 {
        return false;
    }
    let r = c[0] == 102 && c[1] == 105 && c[2] == 108 && c[3] == 101;
    proof {
        if r {
            assert(c@ =~= cmd_file());
        } else {
            if c@ == cmd_file() {
                assert(c@[0] == 102 && c@[1] == 105 && c@[2] == 108 && c@[3] == 101);
            }
        }
    }
    r
}

/// Digit sequences keep their value nonnegative.
proof fn lemma_dec_val_nonneg(s: Seq<u8>)
    requires
        all_digits(s),
    ensures
        dec_val(s) >= 0,
    decreases s.len(),
{
    if s.len() > 0 {
        assert forall|i: int| 0 <= i < s.drop_last().len() implies is_digit(
            #[trigger] s.drop_last()[i],
        ) by {
            assert(s.drop_last()[i] == s[i]);
        }
        lemma_dec_val_nonneg(s.drop_last());
    }
}

/// A digit sequence's value dominates each of its prefixes' values.
proof fn lemma_dec_val_prefix(s: Seq<u8>, m: int)
    requires
        all_digits(s),
        0 <= m <= s.len(),
    ensures
        dec_val(s.take(m)) <= dec_val(s),
    decreases s.len() - m,
{
    if m < s.len() {
        assert(s.take(m + 1).drop_last() =~= s.take(m));
        assert(s.take(m + 1).last() == s[m]);
        assert forall|i: int| 0 <= i < m implies is_digit(#[trigger] s.take(m)[i]) by {
            assert(s.take(m)[i] == s[i]);
        }
        lemma_dec_val_nonneg(s.take(m));
        assert(dec_val(s.take(m + 1)) >= dec_val(s.take(m)));
        lemma_dec_val_prefix(s, m + 1);
    } else {
        assert(s.take(m) =~= s);
    }
}

/// Reads a numeric index argument: optional plus sign, then digits, value
/// within the machine's word.
fn parse_index_exec(arg: &Vec<u8>) -> (r: Option<usize>)
    ensures
        match r {
            Some(v) => parse_index(arg@) == Some(v as int),
            None => parse_index(arg@) is None,
        },
{
    let ghost d = num_body(arg@);
    let start: usize = if arg.len() > 0 && arg[0] == 43 {
        1
    } else {
        0
    };
    proof {
        if start == 1 {
            assert(d =~= arg@.skip(1));
        } else {
            assert(d =~= arg@);
        }
    }
    if start >= arg.len() {
        return None;
    }
    let mut v: usize = 0;
    let mut j: usize = start;
    proof {
        assert(d.take(0) =~= Seq::<u8>::empty());
    }
    while j < arg.len()
        invariant
            start <= j <= arg@.len(),
            start <= 1,
            d == num_body(arg@),
            d.len() == arg@.len() - start,
            forall|k: int| 0 <= k < d.len() ==> d[k] == arg@[k + start],
            all_digits(d.take(j - start)),
            v as int == dec_val(d.take(j - start)),
        decreases arg@.len() - j,
    {
        let ghost m = j - start;
        let b = arg[j];
        proof {
            assert(d[m] == b);
            assert(d.take(m + 1).drop_last() =~= d.take(m));
            assert(d.take(m + 1).last() == b);
        }
        if b < 48 || b > 57 {
            proof {
                assert(!is_digit(d[m]));
            }
            return None;
        }
        let dig = (b - 48) as usize;
        if v > (usize::MAX - dig) / 10 {
            proof {
                assert(v * 10 + dig > usize::MAX) by {
                    let q = (usize::MAX - dig) as int / 10;
                    assert(10 * q >= usize::MAX - dig - 9);
                };
                if all_digits(d) {
                    assert(d.take(d.len() as int) =~= d);
                    lemma_dec_val_prefix(d, m + 1);
                    assert(dec_val(d) > usize::MAX);
                }
            }
            return None;
        }
        proof {
            assert(v * 10 + dig <= usize::MAX) by {
                let q = (usize::MAX - dig) as int / 10;
                assert(10 * q <= usize::MAX - dig);
            };
            assert forall|k: int| 0 <= k < m + 1 implies is_digit(#[trigger] d.take(m + 1)[k]) by {
                assert(d.take(m + 1)[k] == d.take(m + 1)[k]);
                if k < m {
                    assert(d.take(m + 1)[k] == d.take(m)[k]);
                }
            }
        }
        v = v * 10 + dig;
        j = j + 1;
    }
    proof {
        assert(d.take(d.len() as int) =~= d);
    }
    Some(v)
}

/// Reads one line as an instruction, if it has the instruction shape.
fn classify_line_exec(line: &Vec<u8>) -> (r: Option<(Vec<u8>, Vec<Vec<u8>>, bool)>)
    ensures
        ({
            let s = classify_line(line@);
            match r {
                None => s is None,
                Some(t) => s == Some((t.0@, t.1.deep_view(), t.2)),
            }
        }),
{
    let n = line.len();
    let m = marker_pos_exec(line);
    if m >= line.len() {
        return None;
    }
    proof {
        lemma_marker_pos(line@, 0);
        assert(is_marker_at(line@, m as int));
    }
    let cs = m + 7;
    let ce = cmd_end_exec(line, cs);
    if ce == cs || ce >= line.len() {
        return None;
    }
    if line[ce] != 58 {
        return None;
    }
    let cmd = copy_range(line.as_slice(), cs, ce);
    let (args, after) = parse_args_exec(line, ce + 1);
    let colon = args.len() > 0 && after < line.len() && line[after] == 58;
    proof {
        assert(args.deep_view().len() == args@.len());
    }
    Some((cmd, args, colon))
}

// ---------------------------------------------------------------------------
// The executable state and the parser itself.
// ---------------------------------------------------------------------------

/// The model of the scanner's working state.
pub open spec fn state_of(
    base: Option<Vec<u8>>,
    existing: Vec<ExistingFileInfo>,
    updated: Vec<UpdatedFileInfo>,
    cap: Option<(usize, usize)>,
) -> PStateV {
    PStateV {
        base: match base {
            Some(b) => Some(b@),
            None => None::<Seq<u8>>,
        },
        existing: existing.deep_view(),
        updated: updated.deep_view(),
        cap: match cap {
            Some(c) => Some((c.0 as int, c.1 as int)),
            None => None::<(int, int)>,
        },
    }
}

/// Finds where a capture span really ends: the separating line break stays
/// out.
fn trim_end_exec(text: &[u8], start: usize, end0: usize) -> (e: usize)
    requires
        start <= end0 <= text@.len(),
    ensures
        e as int == trim_end(text@, start as int, end0 as int),
        start <= e <= end0,
{
    let mut e = end0;
    if e > start && text[e - 1] == 10 {
        e = e - 1;
    }
    if e > start && text[e - 1] == 13 {
        e = e - 1;
    }
    e
}

/// Stores captured content on the first updated record with the given
/// index.
fn set_content_exec(s: &mut Vec<UpdatedFileInfo>, idx: usize, c: Vec<u8>)
    ensures
        final(s).deep_view() == set_content(old(s).deep_view(), idx as int, c@),
{
    let ghost dv = old(s).deep_view();
    let ghost cv = c@;
    proof {
        lemma_dv_bytes(c);
    }
    match crate::split_file::parsed_merch_doc::lookup_updated(s, idx) {
        Some(p) => {
            let new_path = crate::utils::clone_bytes(&s[p].new_path);
            let id = s[p].idx;
            s.set(p, UpdatedFileInfo { idx: id, new_path, content: Some(c) });
            proof {
                lemma_dv_bytes(s@[p as int].new_path);
                assert(s.deep_view() =~= set_content(dv, idx as int, cv));
            }
        },
        None => {},
    }
}

/// Registers an updated record, replacing the record already carrying the
/// same index if there is one.
fn upsert_updated_exec(s: &mut Vec<UpdatedFileInfo>, r: UpdatedFileInfo)
    ensures
        final(s).deep_view() == upsert_updated(old(s).deep_view(), r.deep_view()),
{
    let ghost dv = old(s).deep_view();
    let ghost rv = r.deep_view();
    let idx = r.idx;
    match crate::split_file::parsed_merch_doc::lookup_updated(s, idx) {
        Some(p) => {
            s.set(p, r);
            proof {
                assert(s.deep_view() =~= dv.update(p as int, rv));
            }
        },
        None => {
            s.push(r);
            proof {
                assert(s.deep_view() =~= dv.push(rv));
            }
        },
    }
}

/// Closes a pending capture at boundary `end0`.
fn close_cap_exec(
    updated: &mut Vec<UpdatedFileInfo>,
    cap: &mut Option<(usize, usize)>,
    text: &[u8],
    end0: usize,
)
    requires
        match *old(cap) {
            Some(c) => c.1 <= end0,
            None => true,
        },
        end0 <= text@.len(),
    ensures
        *final(cap) is None,
        match *old(cap) {
            None => *final(updated) == *old(updated),
            Some(c) => final(updated).deep_view() == set_content(
                old(updated).deep_view(),
                c.0 as int,
                text@.subrange(c.1 as int, trim_end(text@, c.1 as int, end0 as int)),
            ),
        },
{
    let c = *cap;
    *cap = None;
    match c {
        Some(pair) => {
            let e = trim_end_exec(text, pair.1, end0);
            let content = copy_range(text, pair.1, e);
            set_content_exec(updated, pair.0, content);
        },
        None => {},
    }
}

/// Parses the full text of an edited merch document into its structured
/// model: the base directory of its `setup` instruction, the files recorded
/// as existing before the edit, and the files the text now describes, with
/// any content a `file:` instruction captured.
pub fn parse_merch_doc(content: &[u8]) -> (r: Result<ParsedMerchDoc, ParseError>)
    ensures
        ({
            let s = parse_spec(content@);
            match r {
                Ok(doc) => s == Ok::<DocV, ParseError>(doc.deep_view()),
                Err(e) => s == Err::<DocV, ParseError>(e),
            }
        }),
{
    let ghost t = content@;
    let mut base: Option<Vec<u8>> = None;
    let mut existing: Vec<ExistingFileInfo> = Vec::new();
    let mut updated: Vec<UpdatedFileInfo> = Vec::new();
    let mut cap: Option<(usize, usize)> = None;
    proof {
        assert(existing.deep_view() =~= Seq::<ExRecV>::empty());
        assert(updated.deep_view() =~= Seq::<UpdRecV>::empty());
        assert(state_of(base, existing, updated, cap) == init_state());
    }
    let mut p: usize = 0;
    while p < content.len()
        invariant
            p <= t.len(),
            t == content@,
            parse_from(t, 0, init_state()) == parse_from(
                t,
                p as int,
                state_of(base, existing, updated, cap),
            ),
            match cap {
                Some(c) => c.1 <= p,
                None => true,
            },
        decreases t.len() - p,
    {
        let ghost st = state_of(base, existing, updated, cap);
        let e = line_end_exec(content, p);
        proof {
            lemma_line_end(t, p as int);
        }
        if e == content.len() {
            p = e;
        } else {
            let mut line = copy_range(content, p, e);
            let ghost raw = t.subrange(p as int, e as int);
            if line.len() > 0 && line[line.len() - 1] == 13 {
                let _ = line.pop();
                proof {
                    assert(line@ =~= raw.drop_last());
                }
            }
            let ghost lv = line@;
            match classify_line_exec(&line) {
                None => {
                    proof {
                        assert(parse_from(t, p as int, st) == parse_from(t, e as int + 1, st));
                    }
                    p = e + 1;
                },
                Some(cav) => {
                    let (cmd, args, colon) = cav;
                    let ghost st1 = close_cap(st, t, p as int);
                    close_cap_exec(&mut updated, &mut cap, content, p);
                    proof {
                        assert(state_of(base, existing, updated, cap) == st1);
                        assert(args.deep_view().len() == args@.len());
                    }
                    if is_setup_cmd(&cmd) {
                        if args.len() < 1 {
                            return Err(ParseError::MalformedInstruction(p));
                        }
                        proof {
                            assert(args.deep_view()[0] == args@[0].deep_view());
                            lemma_dv_bytes(args@[0]);
                        }
                        base = Some(crate::utils::clone_bytes(&args[0]));
                        proof {
                            assert(state_of(base, existing, updated, cap) == apply_cmd(
                                st1,
                                cmd@,
                                args.deep_view(),
                                colon,
                                e as int + 1,
                                p as int,
                            ).unwrap());
                        }
                        p = e + 1;
                    } else if is_existing_cmd(&cmd) {
                        if args.len() < 3 {
                            return Err(ParseError::MalformedInstruction(p));
                        }
                        proof {
                            assert(args.deep_view()[0] == args@[0].deep_view());
                            assert(args.deep_view()[1] == args@[1].deep_view());
                            assert(args.deep_view()[2] == args@[2].deep_view());
                            lemma_dv_bytes(args@[0]);
                            lemma_dv_bytes(args@[1]);
                            lemma_dv_bytes(args@[2]);
                        }
                        match parse_index_exec(&args[1]) {
                            None => {
                                return Err(ParseError::MalformedInstruction(p));
                            },
                            Some(ix) => {
                                let ghost epre = existing.deep_view();
                                let path = crate::utils::clone_bytes(&args[0]);
                                let hash = crate::utils::clone_bytes(&args[2]);
                                existing.push(ExistingFileInfo { idx: ix, path, hash });
                                proof {
                                    lemma_dv_bytes(existing@[existing@.len() - 1].path);
                                    lemma_dv_bytes(existing@[existing@.len() - 1].hash);
                                    assert(existing.deep_view() =~= epre.push(
                                        ExRecV {
                                            idx: ix as int,
                                            path: args@[0]@,
                                            hash: args@[2]@,
                                        },
                                    ));
                                }
                                p = e + 1;
                            },
                        }
                    } else if is_file_cmd(&cmd) {
                        if args.len() < 2 {
                            return Err(ParseError::MalformedInstruction(p));
                        }
                        proof {
                            assert(args.deep_view()[0] == args@[0].deep_view());
                            assert(args.deep_view()[1] == args@[1].deep_view());
                            lemma_dv_bytes(args@[0]);
                            lemma_dv_bytes(args@[1]);
                        }
                        match parse_index_exec(&args[1]) {
                            None => {
                                return Err(ParseError::MalformedInstruction(p));
                            },
                            Some(ix) => {
                                let new_path = crate::utils::clone_bytes(&args[0]);
                                upsert_updated_exec(
                                    &mut updated,
                                    UpdatedFileInfo { idx: ix, new_path, content: None },
                                );
                                cap = if colon {
                                    Some((ix, e + 1))
                                } else {
                                    None
                                };
                                p = e + 1;
                            },
                        }
                    } else {
                        proof {
                            assert(cmd@ != cmd_setup() && cmd@ != cmd_existing_file() && cmd@
                                != cmd_file());
                            assert(apply_cmd(st1, cmd@, args.deep_view(), colon, e as int + 1, p as int)
                                == Ok::<PStateV, ParseError>(st1));
                        }
                        p = e + 1;
                    }
                },
            }
        }
    }
    let ghost st_end = state_of(base, existing, updated, cap);
    close_cap_exec(&mut updated, &mut cap, content, content.len());
    proof {
        assert(parse_from(t, p as int, st_end) == Ok::<PStateV, ParseError>(
            close_cap(st_end, t, t.len() as int),
        ));
        assert(state_of(base, existing, updated, cap) == close_cap(st_end, t, t.len() as int));
    }
    match base {
        None => Err(ParseError::MissingSetup),
        Some(b) => {
            proof {
                lemma_dv_bytes(b);
            }
            Ok(ParsedMerchDoc { base_path: b, existing_files: existing, updated_files: updated })
        },
    }
}

// ---------------------------------------------------------------------------
// The data-model invariant the parser establishes.
// ---------------------------------------------------------------------------

/// Registering a record keeps the updated indices pairwise distinct.
proof fn lemma_upsert_updated_unique(s: Seq<UpdRecV>, r: UpdRecV)
    requires
        unique_updated_indices(s),
    ensures
        unique_updated_indices(upsert_updated(s, r)),
{
    lemma_upd_pos(s, r.idx);
    let p = upd_pos(s, r.idx);
    let q = upsert_updated(s, r);
    if p < s.len() {
        assert forall|i: int, j: int| 0 <= i < j < q.len() implies (#[trigger] q[i]).idx != (
        #[trigger] q[j]).idx by {
            if i != p && j != p {
                assert(q[i] == s[i] && q[j] == s[j]);
            } else if i == p {
                assert(q[j] == s[j] && q[i].idx == s[p].idx);
            } else {
                assert(q[i] == s[i] && q[j].idx == s[p].idx);
            }
        }
    } else {
        assert forall|i: int, j: int| 0 <= i < j < q.len() implies (#[trigger] q[i]).idx != (
        #[trigger] q[j]).idx by {
            if j == s.len() {
                assert(q[i] == s[i]);
                assert(s[i].idx != r.idx);
            } else {
                assert(q[i] == s[i] && q[j] == s[j]);
            }
        }
    }
}

/// Storing captured content leaves every record's index in place.
proof fn lemma_set_content_unique(s: Seq<UpdRecV>, idx: int, c: Seq<u8>)
    requires
        unique_updated_indices(s),
    ensures
        unique_updated_indices(set_content(s, idx, c)),
{
    let q = set_content(s, idx, c);
    lemma_upd_pos(s, idx);
    assert forall|i: int, j: int| 0 <= i < j < q.len() implies (#[trigger] q[i]).idx != (
    #[trigger] q[j]).idx by {
        assert(q[i].idx == s[i].idx && q[j].idx == s[j].idx);
    }
}

/// Every state the scan passes through keeps the updated indices pairwise
/// distinct.
proof fn lemma_parse_from_unique(text: Seq<u8>, p: int, st: PStateV)
    requires
        0 <= p,
        unique_updated_indices(st.updated),
    ensures
        parse_from(text, p, st) is Ok ==> unique_updated_indices(
            parse_from(text, p, st).unwrap().updated,
        ),
    decreases text.len() - p,
{
    if p >= text.len() {
        lemma_close_cap_unique(st, text, text.len() as int);
    } else {
        let e = line_end(text, p);
        lemma_line_end(text, p);
        if e >= text.len() {
            lemma_close_cap_unique(st, text, text.len() as int);
        } else {
            let raw = text.subrange(p, e);
            let line = if raw.len() > 0 && raw[raw.len() - 1] == 13 {
                raw.drop_last()
            } else {
                raw
            };
            match classify_line(line) {
                None => {
                    lemma_parse_from_unique(text, e + 1, st);
                },
                Some((cmd, args, colon)) => {
                    let st1 = close_cap(st, text, p);
                    lemma_close_cap_unique(st, text, p);
                    match apply_cmd(st1, cmd, args, colon, e + 1, p) {
                        Err(er) => {},
                        Ok(st2) => {
                            if cmd == cmd_file() {
                                lemma_upsert_updated_unique(
                                    st1.updated,
                                    UpdRecV {
                                        idx: parse_index(args[1]).unwrap(),
                                        new_path: args[0],
                                        content: None,
                                    },
                                );
                            }
                            lemma_parse_from_unique(text, e + 1, st2);
                        },
                    }
                },
            }
        }
    }
}

/// Closing a capture keeps the updated indices pairwise distinct.
proof fn lemma_close_cap_unique(st: PStateV, text: Seq<u8>, end0: int)
    requires
        unique_updated_indices(st.updated),
    ensures
        unique_updated_indices(close_cap(st, text, end0).updated),
{
    match st.cap {
        None => {},
        Some((idx, start)) => {
            lemma_set_content_unique(
                st.updated,
                idx,
                text.subrange(start, trim_end(text, start, end0)),
            );
        },
    }
}

/// Law (data model): the updated-file records of any document the parser
/// accepts carry pairwise distinct indices.
pub proof fn lemma_parse_unique_updated(text: Seq<u8>)
    ensures
        parse_spec(text) is Ok ==> unique_updated_indices(parse_spec(text).unwrap().updated),
{
    lemma_parse_from_unique(text, 0, init_state());
}

} // verus!
