//! How deeply a text nests its values.
//!
//! A TOML value nests by brackets, by braces and by the dots of dotted keys,
//! and these add up: a key of many parts may stand in an inline table that is
//! the value of another such key. [`nesting`] says how deep that goes in a
//! text, found in one pass over its bytes. The loader turns a text down that
//! goes deeper than [`MAX_NESTING`], and so never hands one to the parser
//! whose value would take a stack of unbounded depth to build.
//!
//! The pass follows the text as TOML reads it. It knows comments and the four
//! kinds of string, with their escapes, and counts nothing in them. Outside
//! of them it keeps the brackets and braces that are open, and counts a dot
//! only where a key stands: at the start of a statement, in a header, and in
//! an inline table before the equals sign. When a brace or bracket closes,
//! or a comma ends an entry of an inline table, what was counted within
//! counts no more; at the end of a statement nothing does.
//!
//! A text that is no TOML (a string without an end, a bracket that closes
//! nothing, a brace where a key should stand) makes the pass lose track. From
//! there to the end of the text every bracket, brace and dot counts,
//! whatever it stands in, and nothing closes.
//!
//! What the result is good for: no header has more parts, and no statement
//! nests its value more deeply, than [`nesting`] says. A part of a header may
//! be an array of tables, which is two levels, so no value of the document
//! lies deeper than three times that and one.

use vstd::prelude::*;
use vstd::string::StringSliceAdditionalSpecFns;

verus! {

/// The deepest nesting of a text that the loader accepts.
pub const MAX_NESTING: usize = 32;

/// What a bracket or brace has opened.
#[derive(Clone, Copy, Debug, PartialEq, Eq, Structural)]
pub enum Kind {
    /// The header of a table or of an array of tables.
    Header,
    Array,
    /// An inline table.
    Table,
}

/// What the pass takes the next byte to be part of.
#[derive(Clone, Copy, Debug, PartialEq, Eq, Structural)]
pub enum Mode {
    /// Keys, values and punctuation.
    Code,
    /// A comment, up to the end of the line.
    Comment,
    /// After one double quote: a string, or the first of three quotes.
    Quote,
    /// After two double quotes: an empty string, or two of three quotes.
    Quotes,
    /// A string between double quotes.
    Basic,
    /// After a backslash in such a string.
    BasicEscape,
    /// A string between three double quotes at either end.
    MultiBasic,
    /// After a backslash in such a string.
    MultiBasicEscape,
    /// After one single quote.
    Tick,
    /// After two single quotes.
    Ticks,
    /// A string between single quotes.
    Literal,
    /// A string between three single quotes at either end.
    MultiLiteral,
}

/// An open bracket or brace.
pub struct Open {
    pub kind: Kind,
    /// The depth at which it was opened.
    pub base: nat,
}

/// The state of the pass after some bytes.
pub struct Scan {
    /// The brackets and braces that are open, the innermost last.
    pub levels: Seq<Open>,
    /// The open brackets and braces and the dots of the keys that lead here.
    pub depth: nat,
    /// Every bracket, brace and dot since the pass lost track.
    pub loose: nat,
    /// The greatest sum of `depth` and `loose` so far.
    pub deepest: nat,
    /// Whether a key stands here, so that a dot parts it.
    pub key: bool,
    /// Whether the pass has kept track.
    pub sure: bool,
    pub mode: Mode,
    /// In a string between three quotes: the quotes in a row just before.
    pub run: nat,
}

/// The state before the first byte.
pub open spec fn start() -> Scan {
    Scan {
        levels: Seq::empty(),
        depth: 0,
        loose: 0,
        deepest: 0,
        key: true,
        sure: true,
        mode: Mode::Code,
        run: 0,
    }
}

/// The state with what is counted now taken into `deepest`.
pub open spec fn marked(scan: Scan) -> Scan {
    if scan.depth + scan.loose > scan.deepest {
        Scan { deepest: scan.depth + scan.loose, ..scan }
    } else {
        scan
    }
}

/// The state after the pass has lost track.
pub open spec fn lost(scan: Scan) -> Scan {
    Scan { sure: false, ..scan }
}

/// The state in another mode, with no quotes counted.
pub open spec fn turned(scan: Scan, mode: Mode) -> Scan {
    Scan { mode, run: 0, ..scan }
}

/// The state after a bracket or brace has opened.
pub open spec fn pushed(scan: Scan, kind: Kind) -> Scan {
    marked(
        Scan {
            levels: scan.levels.push(Open { kind, base: scan.depth }),
            depth: scan.depth + 1,
            key: kind != Kind::Array,
            ..scan
        },
    )
}

/// The state after the innermost bracket or brace has closed: a value has
/// ended.
pub open spec fn popped(scan: Scan) -> Scan {
    Scan { levels: scan.levels.drop_last(), depth: scan.levels.last().base, key: false, ..scan }
}

/// Whether the innermost open bracket or brace is of a kind.
pub open spec fn within(scan: Scan, kind: Kind) -> bool {
    scan.levels.len() > 0 && scan.levels.last().kind == kind
}

/// The state after a byte that is neither in a string nor in a comment.
pub open spec fn code(scan: Scan, byte: u8) -> Scan {
    if byte == 0x0a {
        if scan.levels.len() == 0 {
            Scan { depth: 0, key: true, ..scan }
        } else if within(scan, Kind::Array) {
            scan
        } else {
            lost(scan)
        }
    } else if byte == 0x23 {
        turned(scan, Mode::Comment)
    } else if byte == 0x22 {
        turned(scan, Mode::Quote)
    } else if byte == 0x27 {
        turned(scan, Mode::Tick)
    } else if byte == 0x5b {
        if !scan.key {
            pushed(scan, Kind::Array)
        } else if scan.levels.len() == 0 || within(scan, Kind::Header) {
            pushed(scan, Kind::Header)
        } else {
            lost(scan)
        }
    } else if byte == 0x7b {
        if scan.key {
            lost(scan)
        } else {
            pushed(scan, Kind::Table)
        }
    } else if byte == 0x5d {
        if within(scan, Kind::Array) || within(scan, Kind::Header) {
            popped(scan)
        } else {
            lost(scan)
        }
    } else if byte == 0x7d {
        if within(scan, Kind::Table) {
            popped(scan)
        } else {
            lost(scan)
        }
    } else if byte == 0x2c {
        if within(scan, Kind::Table) {
            Scan { depth: scan.levels.last().base + 1, key: true, ..scan }
        } else if within(scan, Kind::Array) {
            scan
        } else {
            lost(scan)
        }
    } else if byte == 0x3d {
        if scan.key {
            Scan { key: false, ..scan }
        } else {
            lost(scan)
        }
    } else if byte == 0x2e {
        if scan.key {
            marked(Scan { depth: scan.depth + 1, ..scan })
        } else {
            scan
        }
    } else {
        scan
    }
}

/// The state after a byte as far as strings and comments go, and whether the
/// byte stands outside of them and is still to be read as code.
pub open spec fn lexed(scan: Scan, byte: u8) -> (Scan, bool) {
    let quote = byte == 0x22;
    let tick = byte == 0x27;
    let escape = byte == 0x5c;
    let end = byte == 0x0a;
    match scan.mode {
        Mode::Code => (scan, true),
        Mode::Comment => if end {
            (turned(scan, Mode::Code), true)
        } else {
            (scan, false)
        },
        Mode::Quote => if quote {
            (turned(scan, Mode::Quotes), false)
        } else if escape {
            (turned(scan, Mode::BasicEscape), false)
        } else if end {
            (lost(scan), false)
        } else {
            (turned(scan, Mode::Basic), false)
        },
        Mode::Quotes => if quote {
            (turned(scan, Mode::MultiBasic), false)
        } else {
            (turned(scan, Mode::Code), true)
        },
        Mode::Basic => if quote {
            (turned(scan, Mode::Code), false)
        } else if escape {
            (turned(scan, Mode::BasicEscape), false)
        } else if end {
            (lost(scan), false)
        } else {
            (scan, false)
        },
        Mode::BasicEscape => if end {
            (lost(scan), false)
        } else {
            (turned(scan, Mode::Basic), false)
        },
        Mode::MultiBasic => if quote {
            if scan.run >= 5 {
                (lost(scan), false)
            } else {
                (Scan { run: scan.run + 1, ..scan }, false)
            }
        } else if scan.run >= 3 {
            (turned(scan, Mode::Code), true)
        } else if escape {
            (turned(scan, Mode::MultiBasicEscape), false)
        } else {
            (turned(scan, Mode::MultiBasic), false)
        },
        Mode::MultiBasicEscape => (turned(scan, Mode::MultiBasic), false),
        Mode::Tick => if tick {
            (turned(scan, Mode::Ticks), false)
        } else if end {
            (lost(scan), false)
        } else {
            (turned(scan, Mode::Literal), false)
        },
        Mode::Ticks => if tick {
            (turned(scan, Mode::MultiLiteral), false)
        } else {
            (turned(scan, Mode::Code), true)
        },
        Mode::Literal => if tick {
            (turned(scan, Mode::Code), false)
        } else if end {
            (lost(scan), false)
        } else {
            (scan, false)
        },
        Mode::MultiLiteral => if tick {
            if scan.run >= 5 {
                (lost(scan), false)
            } else {
                (Scan { run: scan.run + 1, ..scan }, false)
            }
        } else if scan.run >= 3 {
            (turned(scan, Mode::Code), true)
        } else {
            (turned(scan, Mode::MultiLiteral), false)
        },
    }
}

/// The state after one more byte.
pub open spec fn step(scan: Scan, byte: u8) -> Scan {
    if !scan.sure {
        if byte == 0x5b || byte == 0x7b || byte == 0x2e {
            marked(Scan { loose: scan.loose + 1, ..scan })
        } else {
            scan
        }
    } else {
        let (after, outside) = lexed(scan, byte);
        if outside {
            code(after, byte)
        } else {
            after
        }
    }
}

/// The state after the first `count` bytes of a text.
pub open spec fn scan(bytes: Seq<u8>, count: nat) -> Scan
    decreases count,
{
    if count == 0 {
        start()
    } else {
        step(scan(bytes, (count - 1) as nat), bytes[count - 1])
    }
}

/// How deeply a text nests its values.
pub open spec fn nesting(bytes: Seq<u8>) -> nat {
    scan(bytes, bytes.len()).deepest
}

/// Whether the loader accepts the nesting of a text, given as bytes.
pub open spec fn is_shallow(bytes: Seq<u8>) -> bool {
    nesting(bytes) <= MAX_NESTING
}

/// Whether the loader accepts the nesting of a text.
pub open spec fn is_shallow_text(text: &str) -> bool {
    is_shallow(text.spec_bytes())
}

/// An open bracket or brace, as the pass holds it.
#[derive(Clone, Copy, Debug)]
pub struct Level {
    pub kind: Kind,
    pub base: usize,
}

impl View for Level {
    type V = Open;

    open spec fn view(&self) -> Open {
        Open { kind: self.kind, base: self.base as nat }
    }
}

/// The open brackets and braces that the pass holds.
pub open spec fn opened(levels: Seq<Level>) -> Seq<Open> {
    levels.map_values(|level: Level| level@)
}

/// Every byte counts once at most.
pub open spec fn counted(scan: Scan, count: nat) -> bool {
    &&& scan.depth + scan.loose <= count
    &&& scan.sure ==> scan.loose == 0
    &&& scan.deepest <= count
    &&& scan.run <= 5
    &&& forall|i: int| 0 <= i < scan.levels.len() ==> (#[trigger] scan.levels[i]).base < count
}

/// A byte adds one at most to what is counted.
proof fn lemma_step_counted(before: Scan, byte: u8, count: nat)
    requires
        counted(before, count),
    ensures
        counted(step(before, byte), count + 1),
{
    let next = step(before, byte);
    let after = lexed(before, byte).0;
    assert(after.levels == before.levels && after.depth == before.depth);
    if before.levels.len() > 0 {
        assert(before.levels[before.levels.len() - 1].base < count);
    }
    assert(next.levels == before.levels || next.levels == before.levels.drop_last() || exists|kind: Kind|
        next.levels == before.levels.push(Open { kind, base: before.depth })) by {
        if next.levels != before.levels && next.levels != before.levels.drop_last() {
            if byte == 0x7b {
                assert(next.levels == before.levels.push(Open { kind: Kind::Table, base: before.depth }));
            } else if before.key {
                assert(next.levels == before.levels.push(Open { kind: Kind::Header, base: before.depth }));
            } else {
                assert(next.levels == before.levels.push(Open { kind: Kind::Array, base: before.depth }));
            }
        }
    }
    assert forall|i: int| 0 <= i < next.levels.len() implies (#[trigger] next.levels[i]).base < count
        + 1 by {
        if i < before.levels.len() {
            assert(before.levels[i].base < count);
        }
    }
}

/// Every byte counts once at most.
proof fn lemma_scan_counted(bytes: Seq<u8>, count: nat)
    ensures
        counted(scan(bytes, count), count),
    decreases count,
{
    if count > 0 {
        lemma_scan_counted(bytes, (count - 1) as nat);
        lemma_step_counted(scan(bytes, (count - 1) as nat), bytes[count - 1], (count - 1) as nat);
    }
}

/// Whether a text nests its values no deeper than [`MAX_NESTING`].
pub fn shallow(text: &str) -> (within: bool)
    ensures
        within == is_shallow_text(text),
{
    nesting_of(text) <= MAX_NESTING
}

/// How deeply a text nests its values.
pub fn nesting_of(text: &str) -> (deepest: usize)
    ensures
        deepest == nesting(text.spec_bytes()),
{
    let bytes = text.as_bytes();
    let mut levels: Vec<Level> = Vec::new();
    let mut depth: usize = 0;
    let mut loose: usize = 0;
    let mut deepest: usize = 0;
    let mut key = true;
    let mut sure = true;
    let mut mode = Mode::Code;
    let mut run: usize = 0;
    let mut i: usize = 0;
    assert(opened(levels@) =~= Seq::<Open>::empty());
    while i < bytes.len()
        invariant
            i <= bytes@.len(),
            scan(bytes@, i as nat) == (Scan {
                levels: opened(levels@),
                depth: depth as nat,
                loose: loose as nat,
                deepest: deepest as nat,
                key,
                sure,
                mode,
                run: run as nat,
            }),
        decreases bytes@.len() - i,
    {
        let byte = bytes[i];
        let ghost before = scan(bytes@, i as nat);
        proof {
            lemma_scan_counted(bytes@, i as nat);
            lemma_scan_counted(bytes@, (i + 1) as nat);
        }
        if !sure {
            if byte == 0x5b || byte == 0x7b || byte == 0x2e {
                loose = loose + 1;
                if depth + loose > deepest {
                    deepest = depth + loose;
                }
            }
        } else {
            let quote = byte == 0x22;
            let tick = byte == 0x27;
            let escape = byte == 0x5c;
            let end = byte == 0x0a;
            let mut outside = false;
            match mode {
                Mode::Code => {
                    outside = true;
                },
                Mode::Comment => {
                    if end {
                        mode = Mode::Code;
                        run = 0;
                        outside = true;
                    }
                },
                Mode::Quote => {
                    if quote {
                        mode = Mode::Quotes;
                        run = 0;
                    } else if escape {
                        mode = Mode::BasicEscape;
                        run = 0;
                    } else if end {
                        sure = false;
                    } else {
                        mode = Mode::Basic;
                        run = 0;
                    }
                },
                Mode::Quotes => {
                    if quote {
                        mode = Mode::MultiBasic;
                        run = 0;
                    } else {
                        mode = Mode::Code;
                        run = 0;
                        outside = true;
                    }
                },
                Mode::Basic => {
                    if quote {
                        mode = Mode::Code;
                        run = 0;
                    } else if escape {
                        mode = Mode::BasicEscape;
                        run = 0;
                    } else if end {
                        sure = false;
                    }
                },
                Mode::BasicEscape => {
                    if end {
                        sure = false;
                    } else {
                        mode = Mode::Basic;
                        run = 0;
                    }
                },
                Mode::MultiBasic => {
                    if quote {
                        if run >= 5 {
                            sure = false;
                        } else {
                            run = run + 1;
                        }
                    } else if run >= 3 {
                        mode = Mode::Code;
                        run = 0;
                        outside = true;
                    } else if escape {
                        mode = Mode::MultiBasicEscape;
                        run = 0;
                    } else {
                        run = 0;
                    }
                },
                Mode::MultiBasicEscape => {
                    mode = Mode::MultiBasic;
                    run = 0;
                },
                Mode::Tick => {
                    if tick {
                        mode = Mode::Ticks;
                        run = 0;
                    } else if end {
                        sure = false;
                    } else {
                        mode = Mode::Literal;
                        run = 0;
                    }
                },
                Mode::Ticks => {
                    if tick {
                        mode = Mode::MultiLiteral;
                        run = 0;
                    } else {
                        mode = Mode::Code;
                        run = 0;
                        outside = true;
                    }
                },
                Mode::Literal => {
                    if tick {
                        mode = Mode::Code;
                        run = 0;
                    } else if end {
                        sure = false;
                    }
                },
                Mode::MultiLiteral => {
                    if tick {
                        if run >= 5 {
                            sure = false;
                        } else {
                            run = run + 1;
                        }
                    } else if run >= 3 {
                        mode = Mode::Code;
                        run = 0;
                        outside = true;
                    } else {
                        run = 0;
                    }
                },
            }
            let ghost after = lexed(before, byte).0;
            assert(lexed(before, byte).1 == outside);
            assert(after == (Scan {
                levels: opened(levels@),
                depth: depth as nat,
                loose: loose as nat,
                deepest: deepest as nat,
                key,
                sure,
                mode,
                run: run as nat,
            }));
            if outside {
                let open = levels.len();
                let mut innermost = Kind::Array;
                let mut base: usize = 0;
                if open > 0 {
                    innermost = levels[open - 1].kind;
                    base = levels[open - 1].base;
                    assert(after.levels.last() == levels@[open - 1]@);
                }
                let in_array = open > 0 && matches!(innermost, Kind::Array);
                let in_header = open > 0 && matches!(innermost, Kind::Header);
                let in_table = open > 0 && matches!(innermost, Kind::Table);
                assert(in_array == within(after, Kind::Array));
                assert(in_header == within(after, Kind::Header));
                assert(in_table == within(after, Kind::Table));
                let mut push: Option<Kind> = None;
                let mut pop = false;
                if end {
                    if open == 0 {
                        depth = 0;
                        key = true;
                    } else if !in_array {
                        sure = false;
                    }
                } else if byte == 0x23 {
                    mode = Mode::Comment;
                    run = 0;
                } else if quote {
                    mode = Mode::Quote;
                    run = 0;
                } else if tick {
                    mode = Mode::Tick;
                    run = 0;
                } else if byte == 0x5b {
                    if !key {
                        push = Some(Kind::Array);
                    } else if open == 0 || in_header {
                        push = Some(Kind::Header);
                    } else {
                        sure = false;
                    }
                } else if byte == 0x7b {
                    if key {
                        sure = false;
                    } else {
                        push = Some(Kind::Table);
                    }
                } else if byte == 0x5d {
                    if in_array || in_header {
                        pop = true;
                    } else {
                        sure = false;
                    }
                } else if byte == 0x7d {
                    if in_table {
                        pop = true;
                    } else {
                        sure = false;
                    }
                } else if byte == 0x2c {
                    if in_table {
                        depth = base + 1;
                        key = true;
                    } else if !in_array {
                        sure = false;
                    }
                } else if byte == 0x3d {
                    if key {
                        key = false;
                    } else {
                        sure = false;
                    }
                } else if byte == 0x2e {
                    if key {
                        depth = depth + 1;
                        if depth + loose > deepest {
                            deepest = depth + loose;
                        }
                    }
                }
                match push {
                    Some(kind) => {
                        let ghost held = levels@;
                        levels.push(Level { kind, base: depth });
                        assert(opened(levels@) =~= opened(held).push(Open { kind, base: depth as nat }));
                        depth = depth + 1;
                        key = !matches!(kind, Kind::Array);
                        if depth + loose > deepest {
                            deepest = depth + loose;
                        }
                    },
                    None => {},
                }
                if pop {
                    let ghost held = levels@;
                    let _ = levels.pop();
                    assert(opened(levels@) =~= opened(held).drop_last());
                    depth = base;
                    key = false;
                }
            }
        }
        i += 1;
    }
    deepest
}

} // verus!
