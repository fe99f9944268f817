//! CSV parsing.
//!
//! The grammar: fields are separated by commas; rows end at a line feed, a
//! carriage return, or a carriage return followed by a line feed. A field
//! whose first byte is a double quote runs to the matching quote and may
//! contain commas, row ends and doubled quotes (each doubled quote stands
//! for one literal quote byte); a quote inside an unquoted field is an
//! ordinary byte. Blank lines produce no row, and a trailing row end
//! produces no extra row. The text is rejected when a quoted field never
//! closes, or when its closing quote is followed by anything but a comma or
//! a row end.
//!
//! The meaning of a text is fixed by `csv_rows`, a fold of the one-byte
//! transition `scan_step` over the input; the executable scanner mirrors
//! that fold step for step.

use crate::ascii::COMMA;
use crate::ascii::CR;
use crate::ascii::LF;
use crate::ascii::QUOTE;
use vstd::prelude::*;

verus! {

/// Why a CSV text was rejected.
#[derive(Clone, Copy, Debug, PartialEq, Eq, Structural)]
pub enum ParseError {
    /// The text ended inside a quoted field.
    UnclosedQuote,
    /// The closing quote of a quoted field was followed by a byte other
    /// than a comma or a row end.
    ByteAfterQuote,
}

/// Position of the scanner inside the grammar.
#[derive(Clone, Copy, Debug, PartialEq, Eq, Structural)]
pub enum Mode {
    /// At the start of a row, before any byte of it.
    StartRow,
    /// Right after a comma, at the start of a field.
    StartField,
    /// Inside an unquoted field.
    Unquoted,
    /// Inside a quoted field.
    Quoted,
    /// Right after the closing quote of a quoted field.
    QuoteClosed,
    /// Right after a carriage return that ended a row.
    AfterCr,
    /// After malformed quoting; no later byte leaves this mode.
    Failed,
}

/// The scanner state after some prefix of the input: the finished rows, the
/// finished fields of the current row, the bytes of the current field, and
/// the mode.
#[verifier::ext_equal]
pub struct ScanState {
    pub rows: Seq<Seq<Seq<u8>>>,
    pub row: Seq<Seq<u8>>,
    pub field: Seq<u8>,
    pub mode: Mode,
}

/// The state before any input byte.
pub open spec fn scan_init() -> ScanState {
    ScanState { rows: seq![], row: seq![], field: seq![], mode: Mode::StartRow }
}

/// One byte read at the start of a row (also reached through `AfterCr`).
pub open spec fn row_start_step(st: ScanState, b: u8) -> ScanState {
    if b == QUOTE {
        ScanState { rows: st.rows, row: st.row, field: st.field, mode: Mode::Quoted }
    } else if b == COMMA {
        ScanState {
            rows: st.rows,
            row: st.row.push(seq![]),
            field: st.field,
            mode: Mode::StartField,
        }
    } else if b == LF {
        ScanState { rows: st.rows, row: st.row, field: st.field, mode: Mode::StartRow }
    } else if b == CR {
        ScanState { rows: st.rows, row: st.row, field: st.field, mode: Mode::AfterCr }
    } else {
        ScanState { rows: st.rows, row: st.row, field: st.field.push(b), mode: Mode::Unquoted }
    }
}

/// The transition of the scanner on one byte.
pub open spec fn scan_step(st: ScanState, b: u8) -> ScanState {
    match st.mode {
        Mode::StartRow => row_start_step(st, b),
        Mode::AfterCr => if b == LF {
            ScanState { rows: st.rows, row: st.row, field: st.field, mode: Mode::StartRow }
        } else {
            row_start_step(
                ScanState { rows: st.rows, row: st.row, field: st.field, mode: Mode::StartRow },
                b,
            )
        },
        Mode::StartField => if b == QUOTE {
            ScanState { rows: st.rows, row: st.row, field: st.field, mode: Mode::Quoted }
        } else if b == COMMA {
            ScanState {
                rows: st.rows,
                row: st.row.push(seq![]),
                field: st.field,
                mode: Mode::StartField,
            }
        } else if b == LF {
            ScanState {
                rows: st.rows.push(st.row.push(st.field)),
                row: seq![],
                field: seq![],
                mode: Mode::StartRow,
            }
        } else if b == CR {
            ScanState {
                rows: st.rows.push(st.row.push(st.field)),
                row: seq![],
                field: seq![],
                mode: Mode::AfterCr,
            }
        } else {
            ScanState { rows: st.rows, row: st.row, field: st.field.push(b), mode: Mode::Unquoted }
        },
        Mode::Unquoted => if b == COMMA {
            ScanState {
                rows: st.rows,
                row: st.row.push(st.field),
                field: seq![],
                mode: Mode::StartField,
            }
        } else if b == LF {
            ScanState {
                rows: st.rows.push(st.row.push(st.field)),
                row: seq![],
                field: seq![],
                mode: Mode::StartRow,
            }
        } else if b == CR {
            ScanState {
                rows: st.rows.push(st.row.push(st.field)),
                row: seq![],
                field: seq![],
                mode: Mode::AfterCr,
            }
        } else {
            ScanState { rows: st.rows, row: st.row, field: st.field.push(b), mode: Mode::Unquoted }
        },
        Mode::Quoted => if b == QUOTE {
            ScanState { rows: st.rows, row: st.row, field: st.field, mode: Mode::QuoteClosed }
        } else {
            ScanState { rows: st.rows, row: st.row, field: st.field.push(b), mode: Mode::Quoted }
        },
        Mode::QuoteClosed => if b == QUOTE {
            ScanState { rows: st.rows, row: st.row, field: st.field.push(QUOTE), mode: Mode::Quoted }
        } else if b == COMMA {
            ScanState {
                rows: st.rows,
                row: st.row.push(st.field),
                field: seq![],
                mode: Mode::StartField,
            }
        } else if b == LF {
            ScanState {
                rows: st.rows.push(st.row.push(st.field)),
                row: seq![],
                field: seq![],
                mode: Mode::StartRow,
            }
        } else if b == CR {
            ScanState {
                rows: st.rows.push(st.row.push(st.field)),
                row: seq![],
                field: seq![],
                mode: Mode::AfterCr,
            }
        } else {
            ScanState { rows: st.rows, row: st.row, field: st.field, mode: Mode::Failed }
        },
        Mode::Failed => st,
    }
}

/// The scanner state after the whole input.
pub open spec fn scan(input: Seq<u8>) -> ScanState
    decreases input.len(),
{
    if input.len() == 0 {
        scan_init()
    } else {
        scan_step(scan(input.drop_last()), input.last())
    }
}

/// Closes the scan at end of input: a pending field (and with it the
/// pending row) still belongs to the text; a pending quoted field or an
/// earlier quoting fault rejects it.
pub open spec fn scan_finish(st: ScanState) -> Result<Seq<Seq<Seq<u8>>>, ParseError> {
    match st.mode {
        Mode::StartRow => Ok(st.rows),
        Mode::AfterCr => Ok(st.rows),
        Mode::StartField => Ok(st.rows.push(st.row.push(st.field))),
        Mode::Unquoted => Ok(st.rows.push(st.row.push(st.field))),
        Mode::QuoteClosed => Ok(st.rows.push(st.row.push(st.field))),
        Mode::Quoted => Err(ParseError::UnclosedQuote),
        Mode::Failed => Err(ParseError::ByteAfterQuote),
    }
}

/// The rows of a CSV text, the header row first and the data rows after it,
/// or the reason the text is rejected.
pub open spec fn csv_rows(input: Seq<u8>) -> Result<Seq<Seq<Seq<u8>>>, ParseError> {
    scan_finish(scan(input))
}

/// The fields of one parsed row, as byte sequences.
pub open spec fn fields_view(row: Seq<Vec<u8>>) -> Seq<Seq<u8>> {
    Seq::new(row.len(), |i: int| row[i]@)
}

/// All parsed rows, as sequences of byte sequences.
pub open spec fn rows_view(rows: Seq<Vec<Vec<u8>>>) -> Seq<Seq<Seq<u8>>> {
    Seq::new(rows.len(), |i: int| fields_view(rows[i]@))
}

/// The executable scanner; its parts mirror `ScanState`.
pub struct Scanner {
    pub rows: Vec<Vec<Vec<u8>>>,
    pub row: Vec<Vec<u8>>,
    pub field: Vec<u8>,
    pub mode: Mode,
}

/// The abstract state that an executable scanner stands for.
pub open spec fn scanner_view(sc: Scanner) -> ScanState {
    ScanState {
        rows: rows_view(sc.rows@),
        row: fields_view(sc.row@),
        field: sc.field@,
        mode: sc.mode,
    }
}

impl Scanner {
    pub fn new() -> (sc: Scanner)
        ensures
            scanner_view(sc) == scan_init(),
    {
        let sc = Scanner { rows: Vec::new(), row: Vec::new(), field: Vec::new(), mode: Mode::StartRow };
        proof {
            assert(scanner_view(sc) =~~= scan_init());
        }
        sc
    }

    /// Ends the current field.
    fn end_field(&mut self)
        ensures
            scanner_view(*final(self)) == (ScanState {
                rows: scanner_view(*old(self)).rows,
                row: scanner_view(*old(self)).row.push(scanner_view(*old(self)).field),
                field: seq![],
                mode: scanner_view(*old(self)).mode,
            }),
    {
        let ghost p = scanner_view(*self);
        let mut f: Vec<u8> = Vec::new();
        core::mem::swap(&mut f, &mut self.field);
        self.row.push(f);
        proof {
            assert(fields_view(self.row@) =~= p.row.push(p.field));
        }
    }

    /// Ends the current row, the current field first.
    fn end_row(&mut self)
        ensures
            scanner_view(*final(self)) == (ScanState {
                rows: scanner_view(*old(self)).rows.push(
                    scanner_view(*old(self)).row.push(scanner_view(*old(self)).field),
                ),
                row: seq![],
                field: seq![],
                mode: scanner_view(*old(self)).mode,
            }),
    {
        let ghost p = scanner_view(*self);
        self.end_field();
        let mut r: Vec<Vec<u8>> = Vec::new();
        core::mem::swap(&mut r, &mut self.row);
        self.rows.push(r);
        proof {
            assert(rows_view(self.rows@) =~~= p.rows.push(p.row.push(p.field)));
            assert(fields_view(self.row@) =~= Seq::<Seq<u8>>::empty());
        }
    }

    /// Reads one byte, as `scan_step` does.
    pub fn step(&mut self, b: u8)
        ensures
            scanner_view(*final(self)) == scan_step(scanner_view(*old(self)), b),
    {
        let ghost p = scanner_view(*self);
        match self.mode {
            Mode::StartRow | Mode::AfterCr => {
                if self.mode == Mode::AfterCr && b == LF {
                    self.mode = Mode::StartRow;
                } else if b == QUOTE {
                    self.mode = Mode::Quoted;
                } else if b == COMMA {
                    self.row.push(Vec::new());
                    self.mode = Mode::StartField;
                    proof {
                        assert(fields_view(self.row@) =~= p.row.push(seq![]));
                    }
                } else if b == LF {
                    self.mode = Mode::StartRow;
                } else if b == CR {
                    self.mode = Mode::AfterCr;
                } else {
                    self.field.push(b);
                    self.mode = Mode::Unquoted;
                }
            },
            Mode::StartField => {
                if b == QUOTE {
                    self.mode = Mode::Quoted;
                } else if b == COMMA {
                    self.row.push(Vec::new());
                    proof {
                        assert(fields_view(self.row@) =~= p.row.push(seq![]));
                    }
                } else if b == LF {
                    self.end_row();
                    self.mode = Mode::StartRow;
                } else if b == CR {
                    self.end_row();
                    self.mode = Mode::AfterCr;
                } else {
                    self.field.push(b);
                    self.mode = Mode::Unquoted;
                }
            },
            Mode::Unquoted => {
                if b == COMMA {
                    self.end_field();
                    self.mode = Mode::StartField;
                } else if b == LF {
                    self.end_row();
                    self.mode = Mode::StartRow;
                } else if b == CR {
                    self.end_row();
                    self.mode = Mode::AfterCr;
                } else {
                    self.field.push(b);
                }
            },
            Mode::Quoted => {
                if b == QUOTE {
                    self.mode = Mode::QuoteClosed;
                } else {
                    self.field.push(b);
                }
            },
            Mode::QuoteClosed => {
                if b == QUOTE {
                    self.field.push(QUOTE);
                    self.mode = Mode::Quoted;
                } else if b == COMMA {
                    self.end_field();
                    self.mode = Mode::StartField;
                } else if b == LF {
                    self.end_row();
                    self.mode = Mode::StartRow;
                } else if b == CR {
                    self.end_row();
                    self.mode = Mode::AfterCr;
                } else {
                    self.mode = Mode::Failed;
                }
            },
            Mode::Failed => {},
        }
        proof {
            assert(scanner_view(*self) =~~= scan_step(p, b));
        }
    }

    /// Closes the scan, as `scan_finish` does.
    pub fn finish(self) -> (r: Result<Vec<Vec<Vec<u8>>>, ParseError>)
        ensures
            match r {
                Ok(rows) => scan_finish(scanner_view(self)) == Ok::<Seq<Seq<Seq<u8>>>, ParseError>(
                    rows_view(rows@),
                ),
                Err(e) => scan_finish(scanner_view(self)) == Err::<Seq<Seq<Seq<u8>>>, ParseError>(
                    e,
                ),
            },
    {
        let ghost p = scanner_view(self);
        let mut sc = self;
        match sc.mode {
            Mode::StartRow | Mode::AfterCr => Ok(sc.rows),
            Mode::StartField | Mode::Unquoted | Mode::QuoteClosed => {
                sc.end_row();
                proof {
                    assert(rows_view(sc.rows@) == p.rows.push(p.row.push(p.field)));
                }
                Ok(sc.rows)
            },
            Mode::Quoted => Err(ParseError::UnclosedQuote),
            Mode::Failed => Err(ParseError::ByteAfterQuote),
        }
    }
}

/// Parses a CSV text into its rows.
///
/// The result is exactly what `csv_rows` says of the input: the parsed rows
/// when the text is well formed, and the matching `ParseError` when its
/// quoting is malformed.
pub fn parse_csv(input: &Vec<u8>) -> (r: Result<Vec<Vec<Vec<u8>>>, ParseError>)
    ensures
        r matches Ok(rows) ==> csv_rows(input@) == Ok::<Seq<Seq<Seq<u8>>>, ParseError>(
            rows_view(rows@),
        ),
        r matches Err(e) ==> csv_rows(input@) == Err::<Seq<Seq<Seq<u8>>>, ParseError>(e),
{
    let mut sc = Scanner::new();
    let mut i: usize = 0;
    proof {
        assert(input@.take(0) =~= Seq::<u8>::empty());
    }
    while i < input.len()
        invariant
            i <= input.len(),
            scanner_view(sc) == scan(input@.take(i as int)),
        decreases input.len() - i,
    {
        proof {
            assert(input@.take(i as int + 1).drop_last() =~= input@.take(i as int));
            assert(input@.take(i as int + 1).last() == input@[i as int]);
        }
        sc.step(input[i]);
        i = i + 1;
    }
    proof {
        assert(input@.take(input@.len() as int) =~= input@);
    }
    sc.finish()
}

} // verus!
