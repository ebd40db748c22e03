//! Compile diagnostics: a log of messages with places in the source.

use crate::api::{Error, Status};
use crate::fault::{Fault, FaultView};
use crate::names::chars_of;
use crate::parse::byte_count;
use crate::text::{dec_text, decimal_text, joined, part};
use vstd::prelude::*;
use vstd::string::*;

verus! {

/// A message with its detail code and a byte offset into the source, zero where no
/// place is known.
#[derive(Debug)]
pub struct Diagnostic {
    pub detail: u32,
    pub message: String,
    pub byte_offset: usize,
}

/// The mathematical value of a [`Diagnostic`].
pub struct DiagView {
    pub detail: u32,
    pub message: Seq<char>,
    pub byte_offset: usize,
}

impl View for Diagnostic {
    type V = DiagView;

    open spec fn view(&self) -> DiagView {
        DiagView {
            detail: self.detail,
            message: self.message@,
            byte_offset: self.byte_offset,
        }
    }
}

/// The values of a list of diagnostics.
pub open spec fn diag_views(s: Seq<Diagnostic>) -> Seq<DiagView> {
    s.map_values(|d: Diagnostic| d@)
}

/// The diagnostics of the compiles since the log was last cleared, the most recent
/// one last.
pub struct Diagnostics {
    pub entries: Vec<Diagnostic>,
}

impl View for Diagnostics {
    type V = Seq<DiagView>;

    open spec fn view(&self) -> Seq<DiagView> {
        diag_views(self.entries@)
    }
}

/// The log with the message of a fault, if it has one.
pub open spec fn noted(log: Seq<DiagView>, f: FaultView) -> Seq<DiagView> {
    match f.message {
        None => log,
        Some(message) => log.push(
            DiagView {
                detail: f.error.detail,
                message,
                byte_offset: f.error.byte_offset as usize,
            },
        ),
    }
}

impl Diagnostics {
    /// An empty log.
    pub fn new() -> (r: Diagnostics)
        ensures
            r@ == Seq::<DiagView>::empty(),
    {
        let r = Diagnostics { entries: Vec::new() };
        proof {
            assert(r@ =~= Seq::<DiagView>::empty());
        }
        r
    }

    /// Records the message of a fault.
    pub fn note(&mut self, f: Fault)
        ensures
            final(self)@ == noted(old(self)@, f@),
    {
        if let Some(message) = f.message {
            let d = Diagnostic {
                detail: f.error.detail,
                message,
                byte_offset: f.error.byte_offset as usize,
            };
            self.entries.push(d);
            proof {
                assert(self@ =~= old(self)@.push(d@));
            }
        }
    }
}

/// Clears the log.
pub fn clear_diagnostics(log: &mut Diagnostics)
    ensures
        final(log)@ == Seq::<DiagView>::empty(),
{
    log.entries = Vec::new();
    proof {
        assert(log@ =~= Seq::<DiagView>::empty());
    }
}

/// Hands out what was recorded since the log was last cleared, and clears it.
pub fn take_diagnostics(log: &mut Diagnostics) -> (r: Vec<Diagnostic>)
    ensures
        diag_views(r@) == old(log)@,
        final(log)@ == Seq::<DiagView>::empty(),
{
    let mut r: Vec<Diagnostic> = Vec::new();
    std::mem::swap(&mut r, &mut log.entries);
    proof {
        assert(log@ =~= Seq::<DiagView>::empty());
    }
    r
}

/// The phrase of a detail code.
pub open spec fn phrase(detail: u32) -> Seq<char> {
    match detail {
        48 => "missing required system parameter"@,
        49 => "unknown system kind"@,
        51 => "convex hull needs at least 4 points"@,
        52 => "state slot index out of range (0..=15)"@,
        53 => "missing linear system row"@,
        54 => "linear row length must equal slots + 1"@,
        55 => "invalid function body / empty update rule / bad slot lhs"@,
        56 => "expression parse failure"@,
        57 => "number parse failure"@,
        58 => "slot or reference parse failure"@,
        59 => "call arity mismatch"@,
        60 => "program parse failure"@,
        62 => "unknown entity or channel name"@,
        63 => "nbody system has no dynamic bodies"@,
        64 => "invalid color literal"@,
        65 => "invalid loop count (integer in 1..=1000 required)"@,
        66 => "loop unrolls beyond the 10000-statement limit"@,
        67 => "let name shadows a reserved token (t / pi / e / sN)"@,
        68 => "for range must be ascending integers"@,
        69 => "invariant violated at step boundary"@,
        70 => "spatial query outside a system rule (no entity context)"@,
        71 => "every must be an integer ≥ 1"@,
        72 => "substeps must be an integer in 1..=1000"@,
        73 => "dynamic slot LHS is update-only (rk4 stages need compile-time slots)"@,
        75 => "field needs width and height ≥ 1"@,
        76 => "import failed (missing file, bad directive, or cycle)"@,
        77 => "dimension mismatch (see declared units)"@,
        _ => "unspecified compile error"@,
    }
}

/// Maps a detail code to a short phrase, for when nothing richer was recorded.
pub fn detail_name(detail: u32) -> (r: &'static str)
    ensures
        r@ == phrase(detail),
{
    match detail {
        48 => "missing required system parameter",
        49 => "unknown system kind",
        51 => "convex hull needs at least 4 points",
        52 => "state slot index out of range (0..=15)",
        53 => "missing linear system row",
        54 => "linear row length must equal slots + 1",
        55 => "invalid function body / empty update rule / bad slot lhs",
        56 => "expression parse failure",
        57 => "number parse failure",
        58 => "slot or reference parse failure",
        59 => "call arity mismatch",
        60 => "program parse failure",
        62 => "unknown entity or channel name",
        63 => "nbody system has no dynamic bodies",
        64 => "invalid color literal",
        65 => "invalid loop count (integer in 1..=1000 required)",
        66 => "loop unrolls beyond the 10000-statement limit",
        67 => "let name shadows a reserved token (t / pi / e / sN)",
        68 => "for range must be ascending integers",
        69 => "invariant violated at step boundary",
        70 => "spatial query outside a system rule (no entity context)",
        71 => "every must be an integer ≥ 1",
        72 => "substeps must be an integer in 1..=1000",
        73 => "dynamic slot LHS is update-only (rk4 stages need compile-time slots)",
        75 => "field needs width and height ≥ 1",
        76 => "import failed (missing file, bad directive, or cycle)",
        77 => "dimension mismatch (see declared units)",
        _ => "unspecified compile error",
    }
}

/// The number of line breaks among the first `k` characters.
pub open spec fn breaks(s: Seq<char>, k: nat) -> nat
    decreases k,
{
    if k == 0 || k > s.len() {
        0
    } else if s[k - 1] == '\n' {
        breaks(s, (k - 1) as nat) + 1
    } else {
        breaks(s, (k - 1) as nat)
    }
}

/// Where the line of the character `k` starts.
pub open spec fn line_start(s: Seq<char>, k: nat) -> nat
    decreases k,
{
    if k == 0 || k > s.len() || s[k - 1] == '\n' {
        k
    } else {
        line_start(s, (k - 1) as nat)
    }
}

/// The column of the character `k`: its distance in bytes from the last line break;
/// on the first line, one more than the bytes before it.
pub open spec fn column(s: Seq<char>, k: nat) -> nat {
    let from = line_start(s, k);
    if from == 0 {
        byte_count(s, k) + 1
    } else {
        (byte_count(s, k) - byte_count(s, (from - 1) as nat)) as nat
    }
}

/// A number of blanks.
pub open spec fn blanks(n: nat) -> Seq<char> {
    Seq::new(n, |i: int| ' ')
}

/// A text filled up on the left to four characters.
pub open spec fn padded(t: Seq<char>) -> Seq<char> {
    if t.len() < 4 {
        blanks((4 - t.len()) as nat) + t
    } else {
        t
    }
}

/// The source line of the character `k` with a caret under it.
pub open spec fn excerpt(s: Seq<char>, k: nat) -> Seq<char> {
    let line = breaks(s, k) + 1;
    let col = column(s, k);
    "\n  --> line "@ + dec_text(line) + ", column "@ + dec_text(col) + "\n"@ + "    |\n"@ + padded(
        dec_text(line),
    ) + " | "@ + s.subrange(line_start(s, k) as int, crate::peg::line_end(s, k) as int)
        + "\n    | "@ + blanks((col - 1) as nat) + "^"@
}

/// Whether the `k`-th character starts at a byte offset.
pub open spec fn starts_at_byte(s: Seq<char>, k: nat, off: nat) -> bool {
    k <= s.len() && byte_count(s, k) == off
}

/// Whether a byte offset is the start of a character, or the end of the text.
pub open spec fn boundary(s: Seq<char>, off: nat) -> bool {
    exists|k: nat| #[trigger] starts_at_byte(s, k, off)
}

/// The character that starts at a byte offset.
pub open spec fn char_at_byte(s: Seq<char>, off: nat) -> nat {
    choose|k: nat| #[trigger] starts_at_byte(s, k, off)
}

/// A diagnostic in words: the message, and the place where there is one.
pub open spec fn rendered(s: Seq<char>, d: DiagView) -> Seq<char> {
    let head = "error "@ + dec_text(d.detail as nat) + ": "@ + d.message;
    if d.byte_offset > 0 && d.byte_offset <= byte_count(s, s.len()) {
        head + excerpt(s, char_at_byte(s, d.byte_offset as nat))
    } else {
        head
    }
}

proof fn lemma_byte_count_increases(s: Seq<char>, j: nat, k: nat)
    requires
        j < k <= s.len(),
    ensures
        byte_count(s, j) < byte_count(s, k),
    decreases k,
{
    if j < k - 1 {
        lemma_byte_count_increases(s, j, (k - 1) as nat);
    }
}

proof fn lemma_byte_count_covers(s: Seq<char>, k: nat)
    requires
        k <= s.len(),
    ensures
        k <= byte_count(s, k),
    decreases k,
{
    if k > 0 {
        lemma_byte_count_covers(s, (k - 1) as nat);
    }
}

fn spaces(n: usize) -> (r: String)
    ensures
        r@ == blanks(n as nat),
{
    let mut r: String = "".to_owned();
    let mut i: usize = 0;
    proof {
        reveal_strlit("");
        assert(r@ =~= blanks(0));
    }
    while i < n
        invariant
            i <= n,
            r@ == blanks(i as nat),
        decreases n - i,
    {
        r.append(" ");
        proof {
            reveal_strlit(" ");
            assert(r@ =~= blanks((i + 1) as nat));
        }
        i = i + 1;
    }
    r
}

fn pad(t: &str) -> (r: String)
    ensures
        r@ == padded(t@),
{
    let len: usize = t.unicode_len();
    if len < 4 {
        joined(&spaces(4 - len), t)
    } else {
        t.to_owned()
    }
}

/// The character at a byte offset, with the number of line breaks before it and the
/// start of its line.
fn locate(chars: &Vec<char>, off: usize) -> (r: Option<(usize, usize, usize)>)
    requires
        boundary(chars@, off as nat) || off > byte_count(chars@, chars@.len()),
    ensures
        match r {
            Some((k, lines, from)) => off <= byte_count(chars@, chars@.len()) && k == char_at_byte(
                chars@,
                off as nat,
            ) && k <= chars@.len() && byte_count(chars@, k as nat) == off && lines == breaks(
                chars@,
                k as nat,
            ) && lines <= k && from == line_start(chars@, k as nat) && from <= k,
            None => off > byte_count(chars@, chars@.len()),
        },
{
    let ghost s = chars@;
    let mut k: usize = 0;
    let mut at: usize = 0;
    let mut lines: usize = 0;
    let mut from: usize = 0;
    while at < off && k < chars.len()
        invariant
            s == chars@,
            k <= chars.len(),
            at <= off,
            boundary(s, off as nat) || off > byte_count(s, s.len()),
            at == byte_count(s, k as nat),
            lines == breaks(s, k as nat),
            lines <= k,
            from == line_start(s, k as nat),
            from <= k,
        decreases chars.len() - k,
    {
        let c: char = chars[k];
        let n: u32 = c as u32;
        let len: usize = if n < 0x80 {
            1
        } else if n < 0x800 {
            2
        } else if n < 0x1_0000 {
            3
        } else {
            4
        };
        proof {
            if off > byte_count(s, s.len()) {
                if k + 1 < s.len() {
                    lemma_byte_count_increases(s, (k + 1) as nat, s.len());
                }
            } else {
                let t = char_at_byte(s, off as nat);
                assert(starts_at_byte(s, t, off as nat));
                if t <= k {
                    if t < k {
                        lemma_byte_count_increases(s, t, k as nat);
                    }
                    assert(false);
                }
                if t > k + 1 {
                    lemma_byte_count_increases(s, (k + 1) as nat, t);
                }
            }
            assert(byte_count(s, (k + 1) as nat) <= off);
        }
        at = at + len;
        k = k + 1;
        if c == '\n' {
            lines = lines + 1;
            from = k;
        }
    }
    if at < off {
        return None;
    }
    proof {
        if k < s.len() {
            lemma_byte_count_increases(s, k as nat, s.len());
        }
        assert(starts_at_byte(s, k as nat, off as nat));
        let t = char_at_byte(s, off as nat);
        assert(starts_at_byte(s, t, off as nat));
        if t < k {
            lemma_byte_count_increases(s, t, k as nat);
        }
        if k < t {
            lemma_byte_count_increases(s, k as nat, t);
        }
    }
    Some((k, lines, from))
}

fn bytes_from(chars: &Vec<char>, from: usize, to: usize, end: usize) -> (r: usize)
    requires
        from <= to <= chars.len(),
        byte_count(chars@, to as nat) == end,
    ensures
        r == end - byte_count(chars@, from as nat),
{
    let ghost s = chars@;
    let mut k: usize = to;
    let mut left: usize = end;
    while k > from
        invariant
            s == chars@,
            from <= k <= chars.len(),
            left == byte_count(s, k as nat),
            left <= end,
        decreases k,
    {
        let n: u32 = chars[k - 1] as u32;
        let len: usize = if n < 0x80 {
            1
        } else if n < 0x800 {
            2
        } else if n < 0x1_0000 {
            3
        } else {
            4
        };
        left = left - len;
        k = k - 1;
    }
    end - left
}

fn end_of_line(chars: &Vec<char>, k: usize) -> (r: usize)
    requires
        k <= chars.len(),
    ensures
        r == crate::peg::line_end(chars@, k as nat),
        k <= r <= chars.len(),
{
    let mut i: usize = k;
    while i < chars.len() && chars[i] != '\n'
        invariant
            k <= i <= chars.len(),
            crate::peg::line_end(chars@, k as nat) == crate::peg::line_end(chars@, i as nat),
        decreases chars.len() - i,
    {
        i = i + 1;
    }
    i
}

/// Whether a place can be shown in a source.
pub open spec fn showable(s: Seq<char>, off: nat) -> bool {
    off == 0 || boundary(s, off) || off > byte_count(s, s.len())
}

fn show_place(
    source: &str,
    chars: &Vec<char>,
    k: usize,
    lines: usize,
    from: usize,
    off: usize,
) -> (r: String)
    requires
        chars@ == source@,
        k <= source@.len(),
        byte_count(source@, k as nat) == off,
        off < usize::MAX,
        lines == breaks(source@, k as nat),
        lines <= k,
        from == line_start(source@, k as nat),
        from <= k,
    ensures
        r@ == excerpt(source@, k as nat),
{
    let ghost s = source@;
    proof {
        lemma_byte_count_covers(s, k as nat);
    }
    let col: usize = if from == 0 {
        off + 1
    } else {
        proof {
            lemma_byte_count_increases(s, (from - 1) as nat, k as nat);
        }
        bytes_from(chars, from - 1, k, off)
    };
    let line: String = decimal_text(lines as u64 + 1);
    let to: usize = end_of_line(chars, k);
    let mut out: String = "\n  --> line ".to_owned();
    out.append(&line);
    out.append(", column ");
    out.append(&decimal_text(col as u64));
    out.append("\n");
    out.append("    |\n");
    out.append(&pad(&line));
    out.append(" | ");
    out.append(&part(source, from, to));
    out.append("\n    | ");
    out.append(&spaces(col - 1));
    out.append("^");
    out
}

/// Renders a diagnostic with the offending source line and a caret. Its place must be
/// the start of a character, where it is inside the source at all.
pub fn render_diagnostic(source: &str, diag: &Diagnostic) -> (r: String)
    requires
        byte_count(source@, source@.len()) < usize::MAX,
        showable(source@, diag.byte_offset as nat),
    ensures
        r@ == rendered(source@, diag@),
{
    let mut out: String = joined("error ", &decimal_text(diag.detail as u64));
    out.append(": ");
    out.append(&diag.message);
    if diag.byte_offset == 0 {
        return out;
    }
    let chars: Vec<char> = chars_of(source);
    let off: usize = diag.byte_offset;
    let (k, lines, from): (usize, usize, usize) = match locate(&chars, off) {
        Some(v) => v,
        None => return out,
    };
    joined(&out, &show_place(source, &chars, k, lines, from, off))
}

/// The name of a status.
pub open spec fn status_text(s: Status) -> Seq<char> {
    match s {
        Status::Invalid => "Invalid"@,
        Status::HandleStale => "HandleStale"@,
        Status::OwnershipStale => "OwnershipStale"@,
        Status::Conflict => "Conflict"@,
        Status::Capability => "Capability"@,
        Status::Limit => "Limit"@,
        Status::SchemaUnsupported => "SchemaUnsupported"@,
        Status::EirInvalid => "EirInvalid"@,
        Status::Internal => "Internal"@,
    }
}

fn status_name(s: Status) -> (r: &'static str)
    ensures
        r@ == status_text(s),
{
    match s {
        Status::Invalid => "Invalid",
        Status::HandleStale => "HandleStale",
        Status::OwnershipStale => "OwnershipStale",
        Status::Conflict => "Conflict",
        Status::Capability => "Capability",
        Status::Limit => "Limit",
        Status::SchemaUnsupported => "SchemaUnsupported",
        Status::EirInvalid => "EirInvalid",
        Status::Internal => "Internal",
    }
}

/// The last diagnostic with a detail code among the first `k`.
pub open spec fn last_with(log: Seq<DiagView>, detail: u32, k: nat) -> Option<DiagView>
    decreases k,
{
    if k == 0 || k > log.len() {
        None
    } else if log[k - 1].detail == detail {
        Some(log[k - 1])
    } else {
        last_with(log, detail, (k - 1) as nat)
    }
}

/// The description of a failed compile: the most recent diagnostic with its detail
/// code, and else the phrase of that code.
pub open spec fn described(log: Seq<DiagView>, s: Seq<char>, err: Error) -> Seq<char> {
    match last_with(log, err.detail, log.len()) {
        Some(d) => rendered(s, d),
        None => if err.byte_offset > 0 {
            rendered(
                s,
                DiagView {
                    detail: err.detail,
                    message: phrase(err.detail),
                    byte_offset: err.byte_offset as usize,
                },
            )
        } else {
            status_text(err.status) + " ("@ + dec_text(err.detail as nat) + "): "@ + phrase(
                err.detail,
            )
        },
    }
}

/// Describes a failed compile, and clears the log. Only the place that is described
/// must be the start of a character, where it is inside the source at all.
pub fn diagnose(log: &mut Diagnostics, source: &str, err: &Error) -> (r: String)
    requires
        byte_count(source@, source@.len()) < usize::MAX,
        match last_with(old(log)@, err.detail, old(log)@.len()) {
            Some(d) => showable(source@, d.byte_offset as nat),
            None => showable(source@, (err.byte_offset as usize) as nat),
        },
    ensures
        r@ == described(old(log)@, source@, *err),
        final(log)@ == Seq::<DiagView>::empty(),
{
    let ghost before = log@;
    let diags: Vec<Diagnostic> = take_diagnostics(log);
    let mut k: usize = diags.len();
    while k > 0
        invariant
            k <= diags.len(),
            byte_count(source@, source@.len()) < usize::MAX,
            before == diag_views(diags@),
            before.len() == diags@.len(),
            log@ == Seq::<DiagView>::empty(),
            before == old(log)@,
            match last_with(before, err.detail, before.len()) {
                Some(d) => showable(source@, d.byte_offset as nat),
                None => showable(source@, (err.byte_offset as usize) as nat),
            },
            last_with(before, err.detail, before.len()) == last_with(
                before,
                err.detail,
                k as nat,
            ),
        decreases k,
    {
        let d: &Diagnostic = &diags[k - 1];
        proof {
            assert(before[k - 1] == d@);
        }
        if d.detail == err.detail {
            return render_diagnostic(source, d);
        }
        k = k - 1;
    }
    if err.byte_offset > 0 {
        let pseudo = Diagnostic {
            detail: err.detail,
            message: detail_name(err.detail).to_owned(),
            byte_offset: err.byte_offset as usize,
        };
        return render_diagnostic(source, &pseudo);
    }
    let mut out: String = joined(status_name(err.status), " (");
    out.append(&decimal_text(err.detail as u64));
    out.append("): ");
    out.append(detail_name(err.detail));
    out
}

} // verus!
