//! Splitting a delimited tabular file into records of fields.
//!
//! The format is comma-separated records terminated by `\n`, `\r` or
//! `\r\n`. A field that begins with a double quote runs to the matching
//! quote and may contain commas, newlines and doubled quotes (which stand
//! for one literal quote); after the closing quote the field continues
//! unquoted up to the next separator. Blank lines are skipped, a final
//! record needs no terminator, and a leading UTF-8 byte-order mark is
//! ignored. `csv_scan` is the grammar; `split_records` computes it.

use vstd::prelude::*;

verus! {

/// Where the scanner stands between two bytes of the input.
#[derive(Clone, Copy, PartialEq, Eq, Structural, Debug)]
pub enum CsvMode {
    /// At the beginning of a field, where a quote would open a quoted run.
    FieldStart,
    /// Inside an unquoted field or after a closing quote.
    Unquoted,
    /// Inside a quoted run.
    Quoted,
}

/// The records of `data` from byte `i` on, given the scanner's mode, the
/// bytes of the current field, the fields of the current record, and the
/// records already complete.
pub open spec fn csv_scan(
    data: Seq<u8>,
    i: int,
    mode: CsvMode,
    field: Seq<u8>,
    record: Seq<Seq<u8>>,
    out: Seq<Seq<Seq<u8>>>,
) -> Seq<Seq<Seq<u8>>>
    decreases data.len() - i,
    when 0 <= i <= data.len()
{
    if i >= data.len() {
        match mode {
            CsvMode::FieldStart => if record.len() > 0 {
                out.push(record.push(field))
            } else {
                out
            },
            _ => out.push(record.push(field)),
        }
    } else {
        let c = data[i];
        match mode {
            CsvMode::FieldStart => {
                if c == 34 {
                    csv_scan(data, i + 1, CsvMode::Quoted, field, record, out)
                } else if c == 44 {
                    csv_scan(data, i + 1, CsvMode::FieldStart, Seq::empty(), record.push(field), out)
                } else if c == 10 || c == 13 {
                    if record.len() == 0 {
                        csv_scan(data, i + 1, CsvMode::FieldStart, Seq::empty(), Seq::empty(), out)
                    } else {
                        csv_scan(
                            data,
                            i + 1,
                            CsvMode::FieldStart,
                            Seq::empty(),
                            Seq::empty(),
                            out.push(record.push(field)),
                        )
                    }
                } else {
                    csv_scan(data, i + 1, CsvMode::Unquoted, field.push(c), record, out)
                }
            },
            CsvMode::Unquoted => {
                if c == 44 {
                    csv_scan(data, i + 1, CsvMode::FieldStart, Seq::empty(), record.push(field), out)
                } else if c == 10 || c == 13 {
                    csv_scan(
                        data,
                        i + 1,
                        CsvMode::FieldStart,
                        Seq::empty(),
                        Seq::empty(),
                        out.push(record.push(field)),
                    )
                } else {
                    csv_scan(data, i + 1, CsvMode::Unquoted, field.push(c), record, out)
                }
            },
            CsvMode::Quoted => {
                if c == 34 {
                    if i + 1 < data.len() && data[i + 1] == 34 {
                        csv_scan(data, i + 2, CsvMode::Quoted, field.push(34), record, out)
                    } else {
                        csv_scan(data, i + 1, CsvMode::Unquoted, field, record, out)
                    }
                } else {
                    csv_scan(data, i + 1, CsvMode::Quoted, field.push(c), record, out)
                }
            },
        }
    }
}

/// `data` without a leading UTF-8 byte-order mark.
pub open spec fn strip_bom(data: Seq<u8>) -> Seq<u8> {
    if data.len() >= 3 && data[0] == 0xef && data[1] == 0xbb && data[2] == 0xbf {
        data.skip(3)
    } else {
        data
    }
}

/// The records of a whole tabular file.
pub open spec fn spec_records(data: Seq<u8>) -> Seq<Seq<Seq<u8>>> {
    csv_scan(strip_bom(data), 0, CsvMode::FieldStart, Seq::empty(), Seq::empty(), Seq::empty())
}

/// The fields of one record, as byte strings.
pub open spec fn fields_view(s: Seq<Vec<u8>>) -> Seq<Seq<u8>> {
    s.map_values(|f: Vec<u8>| f@)
}

/// A sequence of records, as sequences of byte strings.
pub open spec fn records_view(s: Seq<Vec<Vec<u8>>>) -> Seq<Seq<Seq<u8>>> {
    s.map_values(|r: Vec<Vec<u8>>| fields_view(r@))
}

/// Splits a tabular file into its records of fields.
pub fn split_records(data: &Vec<u8>) -> (r: Vec<Vec<Vec<u8>>>)
    ensures
        records_view(r@) == spec_records(data@),
{
    let n = data.len();
    let mut i: usize = 0;
    if n >= 3 && data[0] == 0xef && data[1] == 0xbb && data[2] == 0xbf {
        i = 3;
    }
    let ghost start = i as int;
    let ghost d = strip_bom(data@);
    proof {
        assert(d =~= data@.skip(start));
    }
    let mut mode = CsvMode::FieldStart;
    let mut field: Vec<u8> = Vec::new();
    let mut record: Vec<Vec<u8>> = Vec::new();
    let mut out: Vec<Vec<Vec<u8>>> = Vec::new();
    proof {
        assert(fields_view(record@) =~= Seq::<Seq<u8>>::empty());
        assert(records_view(out@) =~= Seq::<Seq<Seq<u8>>>::empty());
    }
    while i < n
        invariant
            n == data@.len(),
            start <= i as int <= n,
            d == data@.skip(start),
            d.len() == n - start,
            forall|j: int| start <= j < n ==> d[j - start] == data@[j],
            spec_records(data@) == csv_scan(
                d,
                i - start,
                mode,
                field@,
                fields_view(record@),
                records_view(out@),
            ),
            mode == CsvMode::FieldStart ==> field@.len() == 0,
        decreases n - i,
    {
        let ghost j = i - start;
        let ghost m0 = mode;
        let ghost f0 = field@;
        let ghost r0 = fields_view(record@);
        let ghost o0 = records_view(out@);
        let c = data[i];
        proof {
            assert(d[j] == c);
        }
        match mode {
            CsvMode::FieldStart => {
                if c == 34 {
                    mode = CsvMode::Quoted;
                    i = i + 1;
                    proof {
                        assert(csv_scan(d, j, m0, f0, r0, o0) == csv_scan(
                            d, j + 1, CsvMode::Quoted, f0, r0, o0,
                        ));
                    }
                } else if c == 44 {
                    let done = field;
                    field = Vec::new();
                    proof {
                        assert(fields_view(record@.push(done)) =~= fields_view(record@).push(
                            done@,
                        ));
                    }
                    record.push(done);
                    i = i + 1;
                    proof {
                        assert(csv_scan(d, j, m0, f0, r0, o0) == csv_scan(
                            d, j + 1, CsvMode::FieldStart, Seq::empty(), r0.push(f0), o0,
                        ));
                    }
                } else if c == 10 || c == 13 {
                    if record.len() == 0 {
                        i = i + 1;
                        proof {
                            assert(r0 =~= Seq::<Seq<u8>>::empty());
                            assert(f0 =~= Seq::<u8>::empty());
                            assert(csv_scan(d, j, m0, f0, r0, o0) == csv_scan(
                                d, j + 1, CsvMode::FieldStart, Seq::empty(), Seq::empty(), o0,
                            ));
                        }
                    } else {
                        let done_field = field;
                        field = Vec::new();
                        let mut done = record;
                        record = Vec::new();
                        proof {
                            assert(fields_view(done@.push(done_field)) =~= fields_view(
                                done@,
                            ).push(done_field@));
                        }
                        done.push(done_field);
                        proof {
                            assert(records_view(out@.push(done)) =~= records_view(out@).push(
                                fields_view(done@),
                            ));
                            assert(fields_view(record@) =~= Seq::<Seq<u8>>::empty());
                        }
                        out.push(done);
                        i = i + 1;
                        proof {
                            assert(r0.len() > 0);
                            assert(csv_scan(d, j, m0, f0, r0, o0) == csv_scan(
                                d,
                                j + 1,
                                CsvMode::FieldStart,
                                Seq::empty(),
                                Seq::empty(),
                                o0.push(r0.push(f0)),
                            ));
                        }
                    }
                } else {
                    field.push(c);
                    mode = CsvMode::Unquoted;
                    i = i + 1;
                    proof {
                        assert(csv_scan(d, j, m0, f0, r0, o0) == csv_scan(
                            d, j + 1, CsvMode::Unquoted, f0.push(c), r0, o0,
                        ));
                    }
                }
            },
            CsvMode::Unquoted => {
                if c == 44 {
                    let done = field;
                    field = Vec::new();
                    proof {
                        assert(fields_view(record@.push(done)) =~= fields_view(record@).push(
                            done@,
                        ));
                    }
                    record.push(done);
                    mode = CsvMode::FieldStart;
                    i = i + 1;
                    proof {
                        assert(csv_scan(d, j, m0, f0, r0, o0) == csv_scan(
                            d, j + 1, CsvMode::FieldStart, Seq::empty(), r0.push(f0), o0,
                        ));
                    }
                } else if c == 10 || c == 13 {
                    let done_field = field;
                    field = Vec::new();
                    let mut done = record;
                    record = Vec::new();
                    proof {
                        assert(fields_view(done@.push(done_field)) =~= fields_view(done@).push(
                            done_field@,
                        ));
                    }
                    done.push(done_field);
                    proof {
                        assert(records_view(out@.push(done)) =~= records_view(out@).push(
                            fields_view(done@),
                        ));
                        assert(fields_view(record@) =~= Seq::<Seq<u8>>::empty());
                    }
                    out.push(done);
                    mode = CsvMode::FieldStart;
                    i = i + 1;
                    proof {
                        assert(csv_scan(d, j, m0, f0, r0, o0) == csv_scan(
                            d,
                            j + 1,
                            CsvMode::FieldStart,
                            Seq::empty(),
                            Seq::empty(),
                            o0.push(r0.push(f0)),
                        ));
                    }
                } else {
                    field.push(c);
                    i = i + 1;
                    proof {
                        assert(csv_scan(d, j, m0, f0, r0, o0) == csv_scan(
                            d, j + 1, CsvMode::Unquoted, f0.push(c), r0, o0,
                        ));
                    }
                }
            },
            CsvMode::Quoted => {
                if c == 34 {
                    if i + 1 < n && data[i + 1] == 34 {
                        proof {
                            assert(d[j + 1] == data@[i + 1]);
                        }
                        field.push(34);
                        i = i + 2;
                        proof {
                            assert(csv_scan(d, j, m0, f0, r0, o0) == csv_scan(
                                d, j + 2, CsvMode::Quoted, f0.push(34), r0, o0,
                            ));
                        }
                    } else {
                        proof {
                            if j + 1 < d.len() {
                                assert(d[j + 1] == data@[i + 1]);
                            }
                        }
                        mode = CsvMode::Unquoted;
                        i = i + 1;
                        proof {
                            assert(csv_scan(d, j, m0, f0, r0, o0) == csv_scan(
                                d, j + 1, CsvMode::Unquoted, f0, r0, o0,
                            ));
                        }
                    }
                } else {
                    field.push(c);
                    i = i + 1;
                    proof {
                        assert(csv_scan(d, j, m0, f0, r0, o0) == csv_scan(
                            d, j + 1, CsvMode::Quoted, f0.push(c), r0, o0,
                        ));
                    }
                }
            },
        }
    }
    // End of input: close the open record, unless nothing is pending.
    let keep = match mode {
        CsvMode::FieldStart => record.len() > 0,
        _ => true,
    };
    if keep {
        let done_field = field;
        let mut done = record;
        proof {
            assert(fields_view(done@.push(done_field)) =~= fields_view(done@).push(done_field@));
        }
        done.push(done_field);
        proof {
            assert(records_view(out@.push(done)) =~= records_view(out@).push(fields_view(done@)));
        }
        out.push(done);
    }
    out
}

} // verus!
