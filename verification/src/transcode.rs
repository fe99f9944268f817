//! The transcoder: CSV text in, pretty-printed JSON out.
//!
//! The first parsed row is the header row; every later row becomes one
//! record of the document, its fields paired with the header by position.
//! A text with a header but no data rows gives the empty document, and so
//! does a text with no rows at all.

use crate::csv_parse::ParseError;
use crate::csv_parse::csv_rows;
use crate::csv_parse::fields_view;
use crate::csv_parse::parse_csv;
use crate::csv_parse::rows_view;
use crate::json_out::json_of_document;
use crate::json_out::render_document;
use crate::record::NamedValue;
use crate::record::distinct_keys;
use crate::record::document_view;
use crate::record::lemma_record_key_count;
use crate::record::record_of;
use crate::record::record_view;
use vstd::prelude::*;

verus! {

/// The document of a parsed CSV text: one record per data row, each under
/// the header row.
pub open spec fn document_of(rows: Seq<Seq<Seq<u8>>>) -> Seq<Seq<(Seq<u8>, Seq<u8>)>> {
    if rows.len() == 0 {
        seq![]
    } else {
        Seq::new((rows.len() - 1) as nat, |i: int| record_of(rows[0], rows[i + 1]))
    }
}

/// What transcoding a CSV text produces: the pretty-printed JSON of its
/// document, or the reason the text is rejected.
pub open spec fn transcode_spec(input: Seq<u8>) -> Result<Seq<u8>, ParseError> {
    match csv_rows(input) {
        Ok(rows) => Ok(json_of_document(document_of(rows))),
        Err(e) => Err(e),
    }
}

/// Converts one CSV text to pretty-printed JSON.
///
/// `transcode_spec` pins the result for every input — the exact output
/// bytes on success, the exact error otherwise.
pub fn transcode(input: &Vec<u8>) -> (r: Result<Vec<u8>, ParseError>)
    ensures
        r matches Ok(out) ==> transcode_spec(input@) == Ok::<Seq<u8>, ParseError>(out@),
        r matches Err(e) ==> transcode_spec(input@) == Err::<Seq<u8>, ParseError>(e),
{
    let rows = match parse_csv(input) {
        Ok(rows) => rows,
        Err(e) => {
            return Err(e);
        },
    };
    let ghost rv = rows_view(rows@);
    let mut doc: Vec<Vec<NamedValue>> = Vec::new();
    proof {
        assert(document_view(doc@) =~~= document_of(rv).take(0));
    }
    if rows.len() > 0 {
        let mut i: usize = 1;
        while i < rows.len()
            invariant
                1 <= i <= rows@.len(),
                rv == rows_view(rows@),
                rv.len() == rows@.len(),
                document_view(doc@) == document_of(rv).take(i - 1),
            decreases rows@.len() - i,
        {
            let rec = crate::record::build_record(&rows[0], &rows[i]);
            let ghost prevdoc = doc@;
            doc.push(rec);
            proof {
                assert(rv[0] == fields_view(rows@[0]@));
                assert(rv[i as int] == fields_view(rows@[i as int]@));
                assert(document_of(rv)[i - 1] == record_of(rv[0], rv[i as int]));
                assert(record_view(rec@) == document_of(rv)[i - 1]);
                assert(document_view(doc@) =~= document_view(prevdoc).push(record_view(rec@)));
                assert(document_of(rv).take(i as int) =~= document_of(rv).take(i - 1).push(
                    document_of(rv)[i - 1],
                ));
                assert(document_view(doc@) =~= document_of(rv).take(i as int));
            }
            i = i + 1;
        }
    }
    proof {
        assert(document_of(rv).take(document_of(rv).len() as int) =~= document_of(rv));
        assert(document_view(doc@) =~~= document_of(rv));
    }
    let out = render_document(&doc);
    Ok(out)
}

/// Law: a CSV text that parses to a header row and data rows yields one
/// document record per data row — none at all when the text has no rows.
pub proof fn lemma_document_record_count(input: Seq<u8>, rows: Seq<Seq<Seq<u8>>>)
    requires
        csv_rows(input) == Ok::<Seq<Seq<Seq<u8>>>, ParseError>(rows),
    ensures
        rows.len() > 0 ==> document_of(rows).len() == rows.len() - 1,
        rows.len() == 0 ==> document_of(rows).len() == 0,
{
}

/// Law: a record of a document never holds more pairs than the header has
/// columns; a data row shorter than the header bounds its record further,
/// and no key appears twice inside one record.
pub proof fn lemma_document_key_bound(rows: Seq<Seq<Seq<u8>>>, i: int)
    requires
        rows.len() > 0,
        0 <= i < document_of(rows).len(),
    ensures
        document_of(rows)[i].len() <= rows[0].len(),
        rows[i + 1].len() < rows[0].len() ==> document_of(rows)[i].len() <= rows[i + 1].len(),
        distinct_keys(document_of(rows)[i]),
{
    lemma_record_key_count(rows[0], rows[i + 1]);
}

/// Law: every pair of every document record is a header name and a
/// data-row field of the parsed text at one shared position, both carried
/// over byte for byte — and the rendering escapes each of them losslessly
/// (`crate::json_out::lemma_escape_round_trip`).
pub proof fn lemma_document_sources(rows: Seq<Seq<Seq<u8>>>, i: int, j: int)
    requires
        rows.len() > 0,
        0 <= i < document_of(rows).len(),
        0 <= j < document_of(rows)[i].len(),
    ensures
        exists|t: int|
            0 <= t < crate::record::pair_count(rows[0], rows[i + 1]) && document_of(rows)[i][j]
                == (#[trigger] rows[0][t], rows[i + 1][t]),
{
    let n = crate::record::pair_count(rows[0], rows[i + 1]);
    crate::record::lemma_record_sources(rows[0], rows[i + 1], n);
    assert(document_of(rows)[i][j] == crate::record::record_of_n(rows[0], rows[i + 1], n)[j]);
}

/// Law: the output is a function of the input bytes alone, so running the
/// transcoder twice over the same bytes gives byte-identical output.
pub proof fn lemma_transcode_deterministic(a: Seq<u8>, b: Seq<u8>)
    requires
        a == b,
    ensures
        transcode_spec(a) == transcode_spec(b),
{
}

} // verus!
