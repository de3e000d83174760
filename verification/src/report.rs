//! The list of all stations as it is printed.

use vstd::prelude::*;
use crate::format::{fmt_mean, fmt_val, val_text};
use crate::mean::mean;
use crate::station::{entries, is_merge, merge_fits, merge_stations, Entry, Station};
use crate::tables::Tables;

verus! {

/// A station as `name=min/mean/max`.
pub open spec fn entry_text(e: Entry) -> Seq<char> {
    e.name + seq!['='] + val_text(e.cell.min as int) + seq!['/'] + val_text(
        mean(e.cell.sum as int, e.cell.cnt as int),
    ) + seq!['/'] + val_text(e.cell.max as int)
}

/// The stations in order, with a comma and a space between any two.
pub open spec fn joined(list: Seq<Entry>) -> Seq<char>
    decreases list.len(),
{
    if list.len() == 0 {
        Seq::empty()
    } else if list.len() == 1 {
        entry_text(list[0])
    } else {
        joined(list.drop_last()) + seq![',', ' '] + entry_text(list.last())
    }
}

/// The stations in braces.
pub open spec fn listing(list: Seq<Entry>) -> Seq<char> {
    seq!['{'] + joined(list) + seq!['}']
}

/// Writes a station as `name=min/mean/max`.
fn push_station(out: &mut String, station: &Station)
    ensures
        final(out)@ == old(out)@ + entry_text(station@),
{
    out.append(station.name.as_str());
    out.append("=");
    let min: String = fmt_val(station.min);
    out.append(min.as_str());
    out.append("/");
    let mean: String = fmt_mean(station.sum, station.cnt);
    out.append(mean.as_str());
    out.append("/");
    let max: String = fmt_val(station.max);
    out.append(max.as_str());
    proof {
        reveal_strlit("=");
        reveal_strlit("/");
        assert(out@ =~= old(out)@ + entry_text(station@));
    }
}

/// Writes stations as `{name=min/mean/max, name=min/mean/max}`.
pub fn list_stations(stations: &[Station]) -> (r: String)
    ensures
        r@ == listing(entries(stations@)),
{
    let ghost list = entries(stations@);
    proof {
        reveal_strlit("{");
        reveal_strlit("}");
        reveal_strlit(", ");
    }
    let mut out: String = String::new();
    out.append("{");
    assert(out@ =~= seq!['{'] + joined(list.take(0)));
    let mut i: usize = 0;
    while i < stations.len()
        invariant
            list == entries(stations@),
            i <= stations.len(),
            ", "@ == seq![',', ' '],
            out@ == seq!['{'] + joined(list.take(i as int)),
        decreases stations.len() - i,
    {
        if i > 0 {
            out.append(", ");
        }
        push_station(&mut out, &stations[i]);
        proof {
            let next = list.take(i + 1);
            assert(next.drop_last() =~= list.take(i as int));
            assert(next.last() == stations@[i as int]@);
            assert(out@ =~= seq!['{'] + joined(next));
        }
        i = i + 1;
    }
    assert(list.take(i as int) =~= list);
    out.append("}");
    assert(out@ =~= listing(list));
    out
}

/// The report on what the tables hold: all stations, merged over the tables and sorted by name.
/// There is none where a sum or a count leaves the range of its type when tables are merged.
pub fn report(tables: &Tables) -> (r: Option<String>)
    requires
        tables.shaped(),
        tables@.readable(),
    ensures
        tables@.decoded(),
        match r {
            Some(text) => {
                &&& merge_fits(tables@.stations())
                &&& exists|list: Seq<Entry>|
                    is_merge(tables@.stations(), list) && text@ == #[trigger] listing(list)
            },
            None => !merge_fits(tables@.stations()),
        },
{
    let stations: Vec<Station> = tables.read_stations();
    match merge_stations(stations.as_slice()) {
        None => None,
        Some(merged) => {
            let text: String = list_stations(merged.as_slice());
            assert(text@ == listing(entries(merged@)));
            Some(text)
        },
    }
}

} // verus!
