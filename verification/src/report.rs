//! The report: the combined map serialized as CSV, one line per key in
//! ascending key order, after the fixed three-column header. The mean column
//! is floating point, which the verified library does not compute; the caller
//! derives each entry's mean text from the entry's values and passes it in.
use vstd::prelude::*;

use crate::codec::csv_line;
use crate::codec::csv_line_of;
use crate::stats::copy_bytes;
use crate::stats::StatsMap;
use crate::value::dec_spec;
use crate::value::u64_to_dec;

verus! {

/// The header fields: `project`, `views_sum`, `processed_views_mean`.
pub open spec fn header_fields() -> Seq<Seq<u8>> {
    seq![
        // "project"
        seq![0x70u8, 0x72u8, 0x6Fu8, 0x6Au8, 0x65u8, 0x63u8, 0x74u8],
        // "views_sum"
        seq![0x76u8, 0x69u8, 0x65u8, 0x77u8, 0x73u8, 0x5Fu8, 0x73u8, 0x75u8, 0x6Du8],
        // "processed_views_mean"
        seq![
            0x70u8,
            0x72u8,
            0x6Fu8,
            0x63u8,
            0x65u8,
            0x73u8,
            0x73u8,
            0x65u8,
            0x64u8,
            0x5Fu8,
            0x76u8,
            0x69u8,
            0x65u8,
            0x77u8,
            0x73u8,
            0x5Fu8,
            0x6Du8,
            0x65u8,
            0x61u8,
            0x6Eu8,
        ],
    ]
}

/// The CSV lines of the first `j` report rows: each entry's line holds its
/// key, its sum in decimal, and the caller-supplied mean text for it.
pub open spec fn report_rows(es: Seq<crate::stats::Entry>, means: Seq<Seq<u8>>, j: int) -> Seq<u8>
    decreases j,
{
    if j <= 0 {
        Seq::empty()
    } else {
        report_rows(es, means, j - 1) + csv_line_of(
            seq![es[j - 1].key@, dec_spec(es[j - 1].sum as nat), means[j - 1]],
        )
    }
}

/// The whole report: the header line, then one line per entry, in entry
/// order (ascending by key for a well-formed map).
pub open spec fn report_spec(m: StatsMap, means: Seq<Seq<u8>>) -> Seq<u8> {
    csv_line_of(header_fields()) + report_rows(m.entries@, means, m.entries@.len() as int)
}

/// Renders the fixed header line.
pub fn render_header() -> (r: Vec<u8>)
    ensures
        r@ == csv_line_of(header_fields()),
{
    let mut f0: Vec<u8> = Vec::new();
    f0.push(0x70);
    f0.push(0x72);
    f0.push(0x6F);
    f0.push(0x6A);
    f0.push(0x65);
    f0.push(0x63);
    f0.push(0x74);
    let mut f1: Vec<u8> = Vec::new();
    f1.push(0x76);
    f1.push(0x69);
    f1.push(0x65);
    f1.push(0x77);
    f1.push(0x73);
    f1.push(0x5F);
    f1.push(0x73);
    f1.push(0x75);
    f1.push(0x6D);
    let mut f2: Vec<u8> = Vec::new();
    f2.push(0x70);
    f2.push(0x72);
    f2.push(0x6F);
    f2.push(0x63);
    f2.push(0x65);
    f2.push(0x73);
    f2.push(0x73);
    f2.push(0x65);
    f2.push(0x64);
    f2.push(0x5F);
    f2.push(0x76);
    f2.push(0x69);
    f2.push(0x65);
    f2.push(0x77);
    f2.push(0x73);
    f2.push(0x5F);
    f2.push(0x6D);
    f2.push(0x65);
    f2.push(0x61);
    f2.push(0x6E);
    proof {
        assert(f0@ =~= header_fields()[0]);
        assert(f1@ =~= header_fields()[1]);
        assert(f2@ =~= header_fields()[2]);
    }
    let mut fields: Vec<Vec<u8>> = Vec::new();
    fields.push(f0);
    fields.push(f1);
    fields.push(f2);
    proof {
        assert(fields.deep_view() =~~= header_fields());
    }
    csv_line(&fields)
}

/// Renders one report row: the key, its 64-bit sum in decimal, and the mean
/// text the caller derived for it.
pub fn render_row(key: &Vec<u8>, sum: u64, mean: &Vec<u8>) -> (r: Vec<u8>)
    ensures
        r@ == csv_line_of(seq![key@, dec_spec(sum as nat), mean@]),
{
    let mut fields: Vec<Vec<u8>> = Vec::new();
    fields.push(copy_bytes(key));
    fields.push(u64_to_dec(sum));
    fields.push(copy_bytes(mean));
    proof {
        assert(fields.deep_view() =~~= seq![key@, dec_spec(sum as nat), mean@]);
    }
    csv_line(&fields)
}

/// Serializes the whole report: the header line, then entry `i`'s line built
/// from its key, its sum and `means[i]`, for every entry in order.
pub fn render_report(m: &StatsMap, means: &Vec<Vec<u8>>) -> (r: Vec<u8>)
    requires
        means@.len() == m.entries@.len(),
    ensures
        r@ == report_spec(*m, means.deep_view()),
{
    let mut out = render_header();
    let ghost mv = means.deep_view();
    let mut j: usize = 0;
    proof {
        assert(out@ =~= csv_line_of(header_fields()) + report_rows(m.entries@, mv, 0));
    }
    while j < m.entries.len()
        invariant
            j <= m.entries@.len(),
            means@.len() == m.entries@.len(),
            mv == means.deep_view(),
            out@ == csv_line_of(header_fields()) + report_rows(m.entries@, mv, j as int),
        decreases m.entries@.len() - j,
    {
        let e = &m.entries[j];
        let mut line = render_row(&e.key, e.sum, &means[j]);
        proof {
            assert(mv[j as int] =~= means@[j as int]@);
            assert(line@ == csv_line_of(
                seq![m.entries@[j as int].key@, dec_spec(m.entries@[j as int].sum as nat), mv[j as int]],
            ));
        }
        out.append(&mut line);
        proof {
            assert(out@ =~= csv_line_of(header_fields()) + report_rows(m.entries@, mv, j + 1));
        }
        j = j + 1;
    }
    out
}

/// The report is a function of the combined map's entries and the mean
/// texts alone: two runs over the same aggregation state yield byte-identical
/// output.
pub proof fn lemma_report_deterministic(
    m1: StatsMap,
    m2: StatsMap,
    means1: Seq<Seq<u8>>,
    means2: Seq<Seq<u8>>,
)
    requires
        m1.entries@ == m2.entries@,
        means1 == means2,
    ensures
        report_spec(m1, means1) == report_spec(m2, means2),
{
}

/// An empty combined map reports exactly the header line and nothing else.
pub proof fn lemma_empty_report(m: StatsMap, means: Seq<Seq<u8>>)
    requires
        m.entries@.len() == 0,
    ensures
        report_spec(m, means) == csv_line_of(header_fields()),
{
    assert(report_rows(m.entries@, means, 0) =~= Seq::<u8>::empty());
    assert(csv_line_of(header_fields()) + Seq::<u8>::empty() =~= csv_line_of(header_fields()));
}

/// Whether a file name carries the recognized compressed-log extension: it
/// ends in `.gz` with a nonempty stem (a bare `.gz` has no extension).
pub open spec fn spec_is_gz_name(n: Seq<u8>) -> bool {
    n.len() >= 4 && n[n.len() - 3] == 0x2E && n[n.len() - 2] == 0x67 && n[n.len() - 1] == 0x7A
}

/// Tests a file name for the `.gz` extension.
pub fn is_gz_name(name: &Vec<u8>) -> (r: bool)
    ensures
        r == spec_is_gz_name(name@),
{
    let n = name.len();
    n >= 4 && name[n - 3] == 0x2E && name[n - 2] == 0x67 && name[n - 1] == 0x7A
}

} // verus!
