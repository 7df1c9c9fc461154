//! The encoder: exact size computation, the three table-building passes
//! over a value tree (hash collection, string deduplication, map-header
//! deduplication), and the final tagged serialization, matching the
//! document layout of [`crate::wire::spec_encode`] byte for byte.
use vstd::prelude::*;

use indexmap::IndexSet;
use std::hash::RandomState;

use crate::value::Hash40;
use crate::value::Value;
use crate::value::ValueSpec;
use crate::value::view_list;
use crate::value::view_entries;
use crate::value::lemma_view_list;
use crate::value::lemma_view_entries;
use crate::wire::size_of;
use crate::wire::prefix_size_list;
use crate::wire::prefix_size_entries;
use crate::wire::lemma_prefix_size_list_total;
use crate::wire::lemma_prefix_size_list_mono;
use crate::wire::lemma_prefix_size_entries_total;
use crate::wire::lemma_prefix_size_entries_mono;
use crate::wire::spec_size_limit;

verus! {

/// What can stop an encode.
#[derive(Debug)]
pub enum Error {
    /// A map key of this type cannot be represented as a 40-bit hash.
    UnsupportedKeyType(&'static str),
    /// A value of this type has no representation in the format.
    UnsupportedValueType(&'static str),
    /// A tree that breaks the format's invariants: a non-ASCII or
    /// embedded-terminator string, or a map with duplicate keys.
    MalformedValue,
    /// A tree whose encoding would overflow the format's 32-bit lengths or
    /// offsets.
    TooLarge,
    /// An error raised by a producer feeding the encoder.
    Custom(String),
}

#[verifier::external_type_specification]
#[verifier::external_body]
#[verifier::reject_recursive_types(T)]
#[verifier::reject_recursive_types(S)]
pub struct ExIndexSet<T, S>(IndexSet<T, S>);

/// The elements a hash set holds, in insertion order.
pub uninterp spec fn index_set_elems(s: IndexSet<u64, RandomState>) -> Seq<u64>;

/// Relies on indexmap's `IndexSet::new`: a new set is empty.
#[verifier::external_body]
fn hash_set_new() -> (r: IndexSet<u64, RandomState>)
    ensures
        index_set_elems(r) == Seq::<u64>::empty(),
{
    IndexSet::new()
}

/// Relies on indexmap's `IndexSet::insert`: an absent value is appended and
/// `true` returned; a present value leaves the set and its order unchanged.
#[verifier::external_body]
fn hash_set_insert(s: &mut IndexSet<u64, RandomState>, h: u64) -> (r: bool)
    ensures
        index_set_elems(*old(s)).contains(h) ==> !r && index_set_elems(*final(s))
            == index_set_elems(*old(s)),
        !index_set_elems(*old(s)).contains(h) ==> r && index_set_elems(*final(s))
            == index_set_elems(*old(s)).push(h),
{
    s.insert(h)
}

/// Relies on indexmap's `IndexSet::get_index_of`: the position of a present
/// value, `None` for an absent one.
#[verifier::external_body]
fn hash_set_index_of(s: &IndexSet<u64, RandomState>, h: u64) -> (r: Option<usize>)
    ensures
        match r {
            Some(i) => i < index_set_elems(*s).len() && index_set_elems(*s)[i as int] == h,
            None => !index_set_elems(*s).contains(h),
        },
{
    s.get_index_of(&h)
}

/// Relies on indexmap's `IndexSet::len`: the number of elements held.
#[verifier::external_body]
fn hash_set_len(s: &IndexSet<u64, RandomState>) -> (r: usize)
    ensures
        r == index_set_elems(*s).len(),
{
    s.len()
}

/// Relies on indexmap's `IndexSet::get_index`: the element at an
/// in-bounds insertion-order position.
#[verifier::external_body]
fn hash_set_get(s: &IndexSet<u64, RandomState>, i: usize) -> (r: u64)
    requires
        i < index_set_elems(*s).len(),
    ensures
        r == index_set_elems(*s)[i as int],
{
    *s.get_index(i).unwrap()
}

/// The exact binary size of `v`, or `None` when it exceeds the format's
/// 32-bit limit.
#[verifier::loop_isolation(false)]
pub fn size_of_checked(v: &Value) -> (r: Option<u64>)
    ensures
        match r {
            Some(s) => s == size_of(v@) && s <= spec_size_limit(),
            None => size_of(v@) > spec_size_limit(),
        },
    decreases v,
{
    match v {
        Value::Bool(_) => Some(2),
        Value::I8(_) => Some(2),
        Value::U8(_) => Some(2),
        Value::I16(_) => Some(3),
        Value::U16(_) => Some(3),
        Value::I32(_) => Some(5),
        Value::U32(_) => Some(5),
        Value::F32(_) => Some(5),
        Value::Hash(_) => Some(5),
        Value::String(_) => Some(5),
        Value::List(vs) => {
            proof {
                lemma_view_list(vs@);
                lemma_prefix_size_list_total(view_list(vs@));
            }
            let ghost es = view_list(vs@);
            if vs.len() as u64 > 0x3fff_ffff {
                proof {
                    lemma_prefix_size_list_mono(es, 0, es.len() as int);
                }
                return None;
            }
            let mut acc: u64 = 5 + 4 * (vs.len() as u64);
            let mut i: usize = 0;
            while i < vs.len()
                invariant
                    i <= vs.len(),
                    acc == 5 + 4 * es.len() + prefix_size_list(es, i as int),
                    acc <= 5 + 4 * 0x3fff_ffffu64 + spec_size_limit(),
                    i > 0 ==> acc <= spec_size_limit(),
                decreases vs.len() - i,
            {
                match size_of_checked(&vs[i]) {
                    Some(s) => {
                        proof {
                            assert(prefix_size_list(es, i as int + 1) == prefix_size_list(
                                es,
                                i as int,
                            ) + size_of(es[i as int]));
                        }
                        acc = acc + s;
                        if acc > 0xffff_ffff {
                            proof {
                                lemma_prefix_size_list_mono(es, i as int + 1, es.len() as int);
                            }
                            return None;
                        }
                    },
                    None => {
                        proof {
                            lemma_prefix_size_list_mono(es, i as int, es.len() as int);
                            assert(prefix_size_list(es, i as int + 1) == prefix_size_list(
                                es,
                                i as int,
                            ) + size_of(es[i as int]));
                            lemma_prefix_size_list_mono(es, i as int + 1, es.len() as int);
                        }
                        return None;
                    },
                }
                i = i + 1;
            }
            proof {
                assert(v@ == ValueSpec::List(es));
            }
            Some(acc)
        },
        Value::Dict(entries) => {
            proof {
                lemma_view_entries(entries@);
                lemma_prefix_size_entries_total(view_entries(entries@));
            }
            let ghost es = view_entries(entries@);
            let mut acc: u64 = 9;
            let mut i: usize = 0;
            while i < entries.len()
                invariant
                    i <= entries.len(),
                    acc == 9 + prefix_size_entries(es, i as int),
                    acc <= 9 + spec_size_limit(),
                    i > 0 ==> acc <= spec_size_limit(),
                decreases entries.len() - i,
            {
                match size_of_checked(&entries[i].1) {
                    Some(s) => {
                        proof {
                            assert(prefix_size_entries(es, i as int + 1) == prefix_size_entries(
                                es,
                                i as int,
                            ) + size_of(es[i as int].1));
                        }
                        acc = acc + s;
                        if acc > 0xffff_ffff {
                            proof {
                                lemma_prefix_size_entries_mono(es, i as int + 1, es.len() as int);
                            }
                            return None;
                        }
                    },
                    None => {
                        proof {
                            assert(prefix_size_entries(es, i as int + 1) == prefix_size_entries(
                                es,
                                i as int,
                            ) + size_of(es[i as int].1));
                            lemma_prefix_size_entries_mono(es, i as int + 1, es.len() as int);
                        }
                        return None;
                    },
                }
                i = i + 1;
            }
            proof {
                assert(v@ == ValueSpec::Dict(es));
            }
            Some(acc)
        },
    }
}

} // verus!

verus! {

use crate::wire::collect_hashes;
use crate::wire::collect_hashes_list;
use crate::wire::collect_hashes_entries;
use crate::wire::push_unique;
use crate::wire::RefTables;
use crate::wire::add_string;
use crate::wire::visit_strings;
use crate::wire::visit_strings_list;
use crate::wire::visit_strings_entries;
use crate::wire::str_bytes;

/// Pass 1: record every hash of `v` (leaves and map keys) into the
/// order-preserving deduplicating set.
#[verifier::loop_isolation(false)]
fn collect_hashes_exec(set: &mut IndexSet<u64, RandomState>, v: &Value)
    ensures
        index_set_elems(*final(set)) == collect_hashes(index_set_elems(*old(set)), v@),
    decreases v,
{
    let ghost hs0 = index_set_elems(*set);
    match v {
        Value::Hash(h) => {
            hash_set_insert(set, h.0);
        },
        Value::List(vs) => {
            proof {
                lemma_view_list(vs@);
            }
            let ghost es = view_list(vs@);
            let mut i: usize = 0;
            proof {
                assert(es.take(0) =~= Seq::<ValueSpec>::empty());
            }
            while i < vs.len()
                invariant
                    i <= vs.len(),
                    index_set_elems(*set) == collect_hashes_list(hs0, es.take(i as int)),
                decreases vs.len() - i,
            {
                collect_hashes_exec(set, &vs[i]);
                proof {
                    let t = es.take(i as int + 1);
                    assert(collect_hashes_list(hs0, t) == collect_hashes(
                        collect_hashes_list(hs0, t.drop_last()),
                        t.last(),
                    ));
                    assert(t.drop_last() =~= es.take(i as int));
                    assert(t.last() == es[i as int]);
                }
                i = i + 1;
            }
            proof {
                assert(es.take(es.len() as int) =~= es);
            }
        },
        Value::Dict(entries) => {
            proof {
                lemma_view_entries(entries@);
            }
            let ghost es = view_entries(entries@);
            let mut i: usize = 0;
            proof {
                assert(es.take(0) =~= Seq::<(u64, ValueSpec)>::empty());
            }
            while i < entries.len()
                invariant
                    i <= entries.len(),
                    index_set_elems(*set) == collect_hashes_entries(hs0, es.take(i as int)),
                decreases entries.len() - i,
            {
                hash_set_insert(set, entries[i].0.0);
                collect_hashes_exec(set, &entries[i].1);
                proof {
                    let t = es.take(i as int + 1);
                    assert(collect_hashes_entries(hs0, t) == collect_hashes(
                        push_unique(collect_hashes_entries(hs0, t.drop_last()), t.last().0),
                        t.last().1,
                    ));
                    assert(t.drop_last() =~= es.take(i as int));
                    assert(t.last() == es[i as int]);
                }
                i = i + 1;
            }
            proof {
                assert(es.take(es.len() as int) =~= es);
            }
        },
        _ => {},
    }
}

/// The lookup map denoted by a string-table association list.
pub open spec fn strs_map(tab: Seq<(String, usize)>) -> Map<Seq<char>, nat>
    decreases tab.len(),
{
    if tab.len() == 0 {
        Map::empty()
    } else {
        strs_map(tab.drop_last()).insert(tab.last().0@, tab.last().1 as nat)
    }
}

/// The table's keys are pairwise distinct.
pub open spec fn str_tab_inv(tab: Seq<(String, usize)>) -> bool {
    forall|i: int, j: int| 0 <= i < j < tab.len() ==> tab[i].0@ != tab[j].0@
}

/// Entries of the table are exactly the bindings of its map.
proof fn lemma_strs_map(tab: Seq<(String, usize)>)
    requires
        str_tab_inv(tab),
    ensures
        forall|i: int|
            0 <= i < tab.len() ==> strs_map(tab).dom().contains(#[trigger] tab[i].0@) && strs_map(
                tab,
            )[tab[i].0@] == tab[i].1 as nat,
        forall|s: Seq<char>|
            #[trigger] strs_map(tab).dom().contains(s) ==> exists|i: int|
                0 <= i < tab.len() && tab[i].0@ == s,
    decreases tab.len(),
{
    if tab.len() > 0 {
        lemma_strs_map(tab.drop_last());
        assert(strs_map(tab) == strs_map(tab.drop_last()).insert(
            tab.last().0@,
            tab.last().1 as nat,
        ));
        assert forall|i: int|
            0 <= i < tab.len() implies strs_map(tab).dom().contains(#[trigger] tab[i].0@)
            && strs_map(tab)[tab[i].0@] == tab[i].1 as nat by {
            if i < tab.len() - 1 {
                assert(tab.drop_last()[i] == tab[i]);
                assert(tab[i].0@ != tab.last().0@);
            }
        }
        assert forall|s: Seq<char>|
            #[trigger] strs_map(tab).dom().contains(s) implies exists|i: int|
            0 <= i < tab.len() && tab[i].0@ == s by {
            if s != tab.last().0@ {
                let i = choose|i: int| 0 <= i < tab.drop_last().len() && tab.drop_last()[i].0@ == s;
                assert(tab[i].0@ == s);
            } else {
                assert(tab[tab.len() - 1].0@ == s);
            }
        }
    }
}

/// Offset bound to `s` in the table, if any.
#[verifier::loop_isolation(false)]
fn str_lookup(tab: &Vec<(String, usize)>, s: &String) -> (r: Option<usize>)
    requires
        str_tab_inv(tab@),
    ensures
        match r {
            Some(o) => strs_map(tab@).dom().contains(s@) && strs_map(tab@)[s@] == o as nat,
            None => !strs_map(tab@).dom().contains(s@),
        },
{
    proof {
        lemma_strs_map(tab@);
    }
    let mut i: usize = 0;
    while i < tab.len()
        invariant
            i <= tab@.len(),
            forall|j: int| 0 <= j < i ==> tab@[j].0@ != s@,
        decreases tab@.len() - i,
    {
        if tab[i].0.eq(s) {
            return Some(tab[i].1);
        }
        i = i + 1;
    }
    proof {
        if strs_map(tab@).dom().contains(s@) {
            let j = choose|j: int| 0 <= j < tab@.len() && tab@[j].0@ == s@;
        }
    }
    None
}

} // verus!

verus! {

use vstd::string::StrSliceExecFns;
use crate::value::ascii_no_nul;
use crate::value::wf_list;
use crate::value::wf_entries;
use crate::value::lemma_wf_list;
use crate::value::lemma_wf_entries;

/// Pass 2a: register every distinct string of `v` in the blob under
/// construction, appending `content + NUL` on first sight.
#[verifier::loop_isolation(false)]
fn visit_strings_exec(
    data: &mut Vec<u8>,
    tab: &mut Vec<(String, usize)>,
    Ghost(fps): Ghost<Map<Seq<(u64, nat)>, nat>>,
    v: &Value,
)
    requires
        v@.wf(),
        str_tab_inv(old(tab)@),
    ensures
        str_tab_inv(final(tab)@),
        (RefTables { blob: final(data)@, strs: strs_map(final(tab)@), fps } == visit_strings(
            RefTables { blob: old(data)@, strs: strs_map(old(tab)@), fps },
            v@,
        )),
    decreases v,
{
    let ghost t0 = RefTables { blob: data@, strs: strs_map(tab@), fps };
    match v {
        Value::String(s) => {
            match str_lookup(tab, s) {
                Some(_) => {
                    proof {
                        assert(visit_strings(t0, v@) =~= t0);
                    }
                },
                None => {
                    let offset = data.len();
                    let st = s.as_str();
                    let mut bytes = st.as_bytes_vec();
                    proof {
                        vstd::string::is_ascii_spec_bytes(st);
                        assert(bytes@ =~= str_bytes(s@));
                    }
                    data.append(&mut bytes);
                    data.push(0);
                    let ghost old_tab = tab@;
                    tab.push((s.clone(), offset));
                    proof {
                        lemma_strs_map(old_tab);
                        assert forall|i: int, j: int|
                            0 <= i < j < tab@.len() implies tab@[i].0@ != tab@[j].0@ by {
                            if j < tab@.len() - 1 {
                                assert(old_tab[i] == tab@[i]);
                                assert(old_tab[j] == tab@[j]);
                            } else {
                                assert(old_tab[i] == tab@[i]);
                            }
                        }
                        assert(tab@.drop_last() =~= old_tab);
                        assert(strs_map(tab@) == strs_map(old_tab).insert(s@, offset as nat));
                        assert(data@ =~= t0.blob + str_bytes(s@) + seq![0u8]);
                        assert(RefTables { blob: data@, strs: strs_map(tab@), fps }
                            =~= add_string(t0, s@));
                    }
                },
            }
        },
        Value::List(vs) => {
            proof {
                lemma_view_list(vs@);
                lemma_wf_list(view_list(vs@));
            }
            let ghost es = view_list(vs@);
            let mut i: usize = 0;
            proof {
                assert(es.take(0) =~= Seq::<ValueSpec>::empty());
                assert(v@ == ValueSpec::List(es));
                assert(wf_list(es));
            }
            while i < vs.len()
                invariant
                    i <= vs.len(),
                    str_tab_inv(tab@),
                    (RefTables { blob: data@, strs: strs_map(tab@), fps } == visit_strings_list(
                        t0,
                        es.take(i as int),
                    )),
                decreases vs.len() - i,
            {
                proof {
                    assert(es[i as int].wf());
                    assert(vs@[i as int]@ == es[i as int]);
                }
                visit_strings_exec(data, tab, Ghost(fps), &vs[i]);
                proof {
                    let t = es.take(i as int + 1);
                    assert(visit_strings_list(t0, t) == visit_strings(
                        visit_strings_list(t0, t.drop_last()),
                        t.last(),
                    ));
                    assert(t.drop_last() =~= es.take(i as int));
                    assert(t.last() == es[i as int]);
                }
                i = i + 1;
            }
            proof {
                assert(es.take(es.len() as int) =~= es);
            }
        },
        Value::Dict(entries) => {
            proof {
                lemma_view_entries(entries@);
                lemma_wf_entries(view_entries(entries@));
            }
            let ghost es = view_entries(entries@);
            let mut i: usize = 0;
            proof {
                assert(es.take(0) =~= Seq::<(u64, ValueSpec)>::empty());
                assert(v@ == ValueSpec::Dict(es));
                assert(wf_entries(es));
            }
            while i < entries.len()
                invariant
                    i <= entries.len(),
                    str_tab_inv(tab@),
                    (RefTables { blob: data@, strs: strs_map(tab@), fps } == visit_strings_entries(
                        t0,
                        es.take(i as int),
                    )),
                decreases entries.len() - i,
            {
                proof {
                    assert(es[i as int].1.wf());
                    assert(entries@[i as int].1@ == es[i as int].1);
                }
                visit_strings_exec(data, tab, Ghost(fps), &entries[i].1);
                proof {
                    let t = es.take(i as int + 1);
                    assert(visit_strings_entries(t0, t) == visit_strings(
                        visit_strings_entries(t0, t.drop_last()),
                        t.last().1,
                    ));
                    assert(t.drop_last() =~= es.take(i as int));
                    assert(t.last() == es[i as int]);
                }
                i = i + 1;
            }
            proof {
                assert(es.take(es.len() as int) =~= es);
            }
        },
        _ => {},
    }
}

} // verus!

verus! {

use crate::wire::fingerprint;
use crate::wire::first_index_of;
use crate::wire::no_dup;
use crate::wire::header_bytes;
use crate::wire::fp_prefix_size;
use crate::wire::add_struct;
use crate::wire::visit_structs;
use crate::wire::visit_structs_list;
use crate::wire::visit_structs_entries;

/// The fingerprint a stored slot sequence denotes.
pub open spec fn fp_view(s: Seq<(u64, u64)>) -> Seq<(u64, nat)> {
    Seq::new(s.len(), |i: int| (s[i].0, s[i].1 as nat))
}

/// A map's dedup fingerprint, computed: each key with its value's exact
/// binary size.
#[verifier::loop_isolation(false)]
fn fingerprint_exec(entries: &Vec<(Hash40, Value)>) -> (r: Vec<(u64, u64)>)
    requires
        size_of(ValueSpec::Dict(view_entries(entries@))) <= spec_size_limit(),
    ensures
        fp_view(r@) == fingerprint(view_entries(entries@)),
{
    proof {
        lemma_view_entries(entries@);
        lemma_prefix_size_entries_total(view_entries(entries@));
    }
    let ghost es = view_entries(entries@);
    let mut out: Vec<(u64, u64)> = Vec::new();
    let mut i: usize = 0;
    while i < entries.len()
        invariant
            i <= entries.len(),
            out@.len() == i,
            forall|j: int|
                0 <= j < i ==> (#[trigger] out@[j]).0 == es[j].0 && out@[j].1 == size_of(es[j].1),
        decreases entries.len() - i,
    {
        proof {
            lemma_prefix_size_entries_mono(es, i as int + 1, es.len() as int);
            assert(prefix_size_entries(es, i as int + 1) == prefix_size_entries(es, i as int)
                + size_of(es[i as int].1));
            lemma_prefix_size_entries_mono(es, 0, i as int);
        }
        let s = size_of_checked(&entries[i].1).unwrap();
        out.push((entries[i].0.0, s));
        i = i + 1;
    }
    proof {
        assert(fp_view(out@) =~= fingerprint(es));
    }
    out
}

/// The lookup map denoted by a header-table association list.
pub open spec fn fps_map(tab: Seq<(Vec<(u64, u64)>, usize)>) -> Map<Seq<(u64, nat)>, nat>
    decreases tab.len(),
{
    if tab.len() == 0 {
        Map::empty()
    } else {
        fps_map(tab.drop_last()).insert(fp_view(tab.last().0@), tab.last().1 as nat)
    }
}

/// The table's fingerprints are pairwise distinct.
pub open spec fn fp_tab_inv(tab: Seq<(Vec<(u64, u64)>, usize)>) -> bool {
    forall|i: int, j: int| 0 <= i < j < tab.len() ==> fp_view(tab[i].0@) != fp_view(tab[j].0@)
}

/// Entries of the header table are exactly the bindings of its map.
proof fn lemma_fps_map(tab: Seq<(Vec<(u64, u64)>, usize)>)
    requires
        fp_tab_inv(tab),
    ensures
        forall|i: int|
            0 <= i < tab.len() ==> fps_map(tab).dom().contains(
                #[trigger] fp_view(tab[i].0@),
            ) && fps_map(tab)[fp_view(tab[i].0@)] == tab[i].1 as nat,
        forall|f: Seq<(u64, nat)>|
            #[trigger] fps_map(tab).dom().contains(f) ==> exists|i: int|
                0 <= i < tab.len() && fp_view(tab[i].0@) == f,
    decreases tab.len(),
{
    if tab.len() > 0 {
        lemma_fps_map(tab.drop_last());
        assert(fps_map(tab) == fps_map(tab.drop_last()).insert(
            fp_view(tab.last().0@),
            tab.last().1 as nat,
        ));
        assert forall|i: int|
            0 <= i < tab.len() implies fps_map(tab).dom().contains(#[trigger] fp_view(tab[i].0@))
            && fps_map(tab)[fp_view(tab[i].0@)] == tab[i].1 as nat by {
            if i < tab.len() - 1 {
                assert(tab.drop_last()[i] == tab[i]);
                assert(fp_view(tab[i].0@) != fp_view(tab.last().0@));
            }
        }
        assert forall|f: Seq<(u64, nat)>|
            #[trigger] fps_map(tab).dom().contains(f) implies exists|i: int|
            0 <= i < tab.len() && fp_view(tab[i].0@) == f by {
            if f != fp_view(tab.last().0@) {
                let i = choose|i: int|
                    0 <= i < tab.drop_last().len() && fp_view(tab.drop_last()[i].0@) == f;
                assert(fp_view(tab[i].0@) == f);
            } else {
                assert(fp_view(tab[tab.len() - 1].0@) == f);
            }
        }
    }
}

/// Whether two stored slot sequences denote the same fingerprint.
#[verifier::loop_isolation(false)]
fn fp_eq(a: &Vec<(u64, u64)>, b: &Vec<(u64, u64)>) -> (r: bool)
    ensures
        r == (fp_view(a@) == fp_view(b@)),
{
    if a.len() != b.len() {
        proof {
            assert(fp_view(a@).len() != fp_view(b@).len());
        }
        return false;
    }
    let mut i: usize = 0;
    while i < a.len()
        invariant
            i <= a@.len(),
            a@.len() == b@.len(),
            forall|j: int| 0 <= j < i ==> a@[j].0 == b@[j].0 && a@[j].1 == b@[j].1,
        decreases a@.len() - i,
    {
        if a[i].0 != b[i].0 || a[i].1 != b[i].1 {
            proof {
                assert(fp_view(a@)[i as int] != fp_view(b@)[i as int]);
            }
            return false;
        }
        i = i + 1;
    }
    proof {
        assert(fp_view(a@) =~= fp_view(b@));
    }
    true
}

/// Offset bound to fingerprint `fp` in the header table, if any.
#[verifier::loop_isolation(false)]
fn fp_lookup(tab: &Vec<(Vec<(u64, u64)>, usize)>, fp: &Vec<(u64, u64)>) -> (r: Option<usize>)
    requires
        fp_tab_inv(tab@),
    ensures
        match r {
            Some(o) => fps_map(tab@).dom().contains(fp_view(fp@)) && fps_map(tab@)[fp_view(fp@)]
                == o as nat,
            None => !fps_map(tab@).dom().contains(fp_view(fp@)),
        },
{
    proof {
        lemma_fps_map(tab@);
    }
    let mut i: usize = 0;
    while i < tab.len()
        invariant
            i <= tab@.len(),
            forall|j: int| 0 <= j < i ==> fp_view(tab@[j].0@) != fp_view(fp@),
        decreases tab@.len() - i,
    {
        if fp_eq(&tab[i].0, fp) {
            return Some(tab[i].1);
        }
        i = i + 1;
    }
    proof {
        if fps_map(tab@).dom().contains(fp_view(fp@)) {
            let j = choose|j: int| 0 <= j < tab@.len() && fp_view(tab@[j].0@) == fp_view(fp@);
        }
    }
    None
}

} // verus!

verus! {

use vstd::bytes::u32_to_le_bytes;
use vstd::bytes::u64_to_le_bytes;
use vstd::bytes::spec_u32_to_le_bytes;
use vstd::bytes::spec_u64_to_le_bytes;
use crate::wire::lemma_first_index_of_unique;

/// Append one map header for fingerprint `fp`: each key's table index and
/// its value's offset relative to the map's tag byte.
#[verifier::loop_isolation(false)]
fn write_header_exec(
    data: &mut Vec<u8>,
    set: &IndexSet<u64, RandomState>,
    fp: &Vec<(u64, u64)>,
)
    requires
        no_dup(index_set_elems(*set)),
        forall|j: int|
            0 <= j < fp@.len() ==> index_set_elems(*set).contains(#[trigger] fp@[j].0),
        fp_prefix_size(fp_view(fp@), fp@.len() as int) <= spec_size_limit(),
    ensures
        final(data)@ == old(data)@ + header_bytes(index_set_elems(*set), fp_view(fp@)),
{
    let ghost hs = index_set_elems(*set);
    let ghost fpv = fp_view(fp@);
    let ghost data0 = data@;
    let mut wip: u64 = 9;
    let mut i: usize = 0;
    proof {
        assert(header_bytes(hs, fpv.take(0)) =~= Seq::<u8>::empty());
        assert(data@ =~= data0 + header_bytes(hs, fpv.take(0)));
    }
    while i < fp.len()
        invariant
            i <= fp@.len(),
            wip == 9 + fp_prefix_size(fpv, i as int),
            wip <= 9 + spec_size_limit(),
            data@ == data0 + header_bytes(hs, fpv.take(i as int)),
        decreases fp@.len() - i,
    {
        let key = fp[i].0;
        let idx = match hash_set_index_of(set, key) {
            Some(idx) => idx,
            None => {
                proof {
                    assert(hs.contains(fp@[i as int].0));
                }
                0
            },
        };
        proof {
            lemma_first_index_of_unique(hs, key, idx as int);
        }
        let mut idx_bytes = u32_to_le_bytes(#[verifier::truncate] (idx as u32));
        data.append(&mut idx_bytes);
        let mut off_bytes = u32_to_le_bytes(#[verifier::truncate] (wip as u32));
        data.append(&mut off_bytes);
        proof {
            let t = fpv.take(i as int + 1);
            assert(header_bytes(hs, t) == header_bytes(hs, t.drop_last()) + spec_u32_to_le_bytes(
                first_index_of(hs, t.last().0) as u32,
            ) + spec_u32_to_le_bytes((9 + fp_prefix_size(t, t.len() - 1)) as u32));
            assert(t.drop_last() =~= fpv.take(i as int));
            assert(t.last() == fpv[i as int]);
            assert(fp_prefix_size(t, t.len() - 1) == fp_prefix_size(fpv, i as int)) by {
                lemma_fp_prefix_take(fpv, i as int);
            }
            assert(data@ =~= data0 + header_bytes(hs, fpv.take(i as int + 1)));
            assert(fp_prefix_size(fpv, i as int + 1) == fp_prefix_size(fpv, i as int)
                + fpv[i as int].1);
            lemma_fp_prefix_mono(fpv, i as int + 1, fpv.len() as int);
        }
        wip = wip + fp[i].1;
        i = i + 1;
    }
    proof {
        assert(fpv.take(fpv.len() as int) =~= fpv);
    }
}

/// A prefix sum over a taken prefix agrees with the whole.
proof fn lemma_fp_prefix_take(fp: Seq<(u64, nat)>, n: int)
    requires
        0 <= n < fp.len(),
    ensures
        fp_prefix_size(fp.take(n + 1), n) == fp_prefix_size(fp, n),
    decreases n,
{
    if n > 0 {
        lemma_fp_prefix_take_inner(fp, n + 1, n);
    }
}

/// Prefix sums only look at slots below `m`.
proof fn lemma_fp_prefix_take_inner(fp: Seq<(u64, nat)>, k: int, m: int)
    requires
        0 <= m < k <= fp.len(),
    ensures
        fp_prefix_size(fp.take(k), m) == fp_prefix_size(fp, m),
    decreases m,
{
    if m > 0 {
        lemma_fp_prefix_take_inner(fp, k, m - 1);
        assert(fp.take(k)[m - 1] == fp[m - 1]);
    }
}

/// Prefix sums of fingerprint slots are monotone.
proof fn lemma_fp_prefix_mono(fp: Seq<(u64, nat)>, m: int, n: int)
    requires
        0 <= m <= n <= fp.len(),
    ensures
        fp_prefix_size(fp, m) <= fp_prefix_size(fp, n),
    decreases n - m,
{
    if n > m {
        lemma_fp_prefix_mono(fp, m, n - 1);
    }
}

} // verus!

verus! {

use crate::wire::hashes_present;
use crate::wire::hashes_present_entries;
use crate::wire::lemma_hp_list_pointwise;
use crate::wire::lemma_hp_entries_pointwise;
use crate::wire::lemma_fp_prefix_is_entries;

/// Pass 2b: register the header of every distinct map shape of `v` in the
/// blob, a map's own header before its values' headers.
#[verifier::loop_isolation(false)]
fn visit_structs_exec(
    set: &IndexSet<u64, RandomState>,
    data: &mut Vec<u8>,
    tab: &mut Vec<(Vec<(u64, u64)>, usize)>,
    Ghost(strs): Ghost<Map<Seq<char>, nat>>,
    v: &Value,
)
    requires
        no_dup(index_set_elems(*set)),
        hashes_present(index_set_elems(*set), v@),
        size_of(v@) <= spec_size_limit(),
        fp_tab_inv(old(tab)@),
    ensures
        fp_tab_inv(final(tab)@),
        (RefTables { blob: final(data)@, strs, fps: fps_map(final(tab)@) } == visit_structs(
            index_set_elems(*set),
            RefTables { blob: old(data)@, strs, fps: fps_map(old(tab)@) },
            v@,
        )),
    decreases v,
{
    let ghost hs = index_set_elems(*set);
    let ghost t0 = RefTables { blob: data@, strs, fps: fps_map(tab@) };
    match v {
        Value::List(vs) => {
            proof {
                lemma_view_list(vs@);
                lemma_prefix_size_list_total(view_list(vs@));
                assert(v@ == ValueSpec::List(view_list(vs@)));
                lemma_hp_list_pointwise(hs, view_list(vs@));
            }
            let ghost es = view_list(vs@);
            let mut i: usize = 0;
            proof {
                assert(es.take(0) =~= Seq::<ValueSpec>::empty());
            }
            while i < vs.len()
                invariant
                    i <= vs.len(),
                    fp_tab_inv(tab@),
                    (RefTables { blob: data@, strs, fps: fps_map(tab@) } == visit_structs_list(
                        hs,
                        t0,
                        es.take(i as int),
                    )),
                decreases vs.len() - i,
            {
                proof {
                    assert(vs@[i as int]@ == es[i as int]);
                    lemma_prefix_size_list_mono(es, i as int + 1, es.len() as int);
                    assert(prefix_size_list(es, i as int + 1) == prefix_size_list(es, i as int)
                        + size_of(es[i as int]));
                    lemma_prefix_size_list_mono(es, 0, i as int);
                }
                visit_structs_exec(set, data, tab, Ghost(strs), &vs[i]);
                proof {
                    let t = es.take(i as int + 1);
                    assert(visit_structs_list(hs, t0, t) == visit_structs(
                        hs,
                        visit_structs_list(hs, t0, t.drop_last()),
                        t.last(),
                    ));
                    assert(t.drop_last() =~= es.take(i as int));
                    assert(t.last() == es[i as int]);
                }
                i = i + 1;
            }
            proof {
                assert(es.take(es.len() as int) =~= es);
            }
        },
        Value::Dict(entries) => {
            proof {
                lemma_view_entries(entries@);
                lemma_prefix_size_entries_total(view_entries(entries@));
                assert(v@ == ValueSpec::Dict(view_entries(entries@)));
                assert(hashes_present_entries(hs, view_entries(entries@)));
                lemma_hp_entries_pointwise(hs, view_entries(entries@));
            }
            let ghost es = view_entries(entries@);
            let fp = fingerprint_exec(entries);
            let ghost t1 = add_struct(hs, t0, fingerprint(es));
            match fp_lookup(tab, &fp) {
                Some(_) => {
                    proof {
                        assert(t1 =~= t0);
                    }
                },
                None => {
                    let offset = data.len();
                    proof {
                        lemma_fp_prefix_is_entries(es, es.len() as int);
                        assert(fp_prefix_size(fp_view(fp@), fp@.len() as int)
                            <= spec_size_limit());
                        assert forall|j: int|
                            0 <= j < fp@.len() implies hs.contains(#[trigger] fp@[j].0) by {
                            assert(fp_view(fp@)[j] == (fp@[j].0, fp@[j].1 as nat));
                            assert(fingerprint(es)[j] == (es[j].0, size_of(es[j].1)));
                            assert(fp@[j].0 == es[j].0);
                            assert(hs.contains(es[j].0));
                        }
                    }
                    write_header_exec(data, set, &fp);
                    let ghost old_tab = tab@;
                    tab.push((fp, offset));
                    proof {
                        lemma_fps_map(old_tab);
                        assert forall|i: int, j: int|
                            0 <= i < j < tab@.len() implies fp_view(tab@[i].0@) != fp_view(
                            tab@[j].0@,
                        ) by {
                            if j < tab@.len() - 1 {
                                assert(old_tab[i] == tab@[i]);
                                assert(old_tab[j] == tab@[j]);
                            } else {
                                assert(old_tab[i] == tab@[i]);
                            }
                        }
                        assert(tab@.drop_last() =~= old_tab);
                        assert(fps_map(tab@) == fps_map(old_tab).insert(
                            fingerprint(es),
                            offset as nat,
                        ));
                        assert(RefTables { blob: data@, strs, fps: fps_map(tab@) } =~= t1);
                    }
                },
            }
            let ghost tloop = RefTables { blob: data@, strs, fps: fps_map(tab@) };
            proof {
                assert(tloop == t1);
            }
            let mut i: usize = 0;
            proof {
                assert(es.take(0) =~= Seq::<(u64, ValueSpec)>::empty());
            }
            while i < entries.len()
                invariant
                    i <= entries.len(),
                    fp_tab_inv(tab@),
                    (RefTables { blob: data@, strs, fps: fps_map(tab@) } == visit_structs_entries(
                        hs,
                        tloop,
                        es.take(i as int),
                    )),
                decreases entries.len() - i,
            {
                proof {
                    assert(entries@[i as int].1@ == es[i as int].1);
                    assert(hs.contains(es[i as int].0));
                    assert(hashes_present(hs, es[i as int].1));
                    lemma_prefix_size_entries_mono(es, i as int + 1, es.len() as int);
                    assert(prefix_size_entries(es, i as int + 1) == prefix_size_entries(
                        es,
                        i as int,
                    ) + size_of(es[i as int].1));
                    lemma_prefix_size_entries_mono(es, 0, i as int);
                }
                visit_structs_exec(set, data, tab, Ghost(strs), &entries[i].1);
                proof {
                    let t = es.take(i as int + 1);
                    assert(visit_structs_entries(hs, tloop, t) == visit_structs(
                        hs,
                        visit_structs_entries(hs, tloop, t.drop_last()),
                        t.last().1,
                    ));
                    assert(t.drop_last() =~= es.take(i as int));
                    assert(t.last() == es[i as int]);
                }
                i = i + 1;
            }
            proof {
                assert(es.take(es.len() as int) =~= es);
            }
        },
        _ => {},
    }
}

} // verus!

verus! {

use vstd::bytes::u16_to_le_bytes;
use vstd::bytes::spec_u16_to_le_bytes;
use crate::wire::strings_present;
use crate::wire::fps_present;
use crate::wire::write_value;
use crate::wire::write_list;
use crate::wire::write_entries;
use crate::wire::list_offset_bytes;
use crate::wire::lemma_sp_list_pointwise;
use crate::wire::lemma_sp_entries_pointwise;
use crate::wire::lemma_fpp_list_pointwise;
use crate::wire::lemma_fpp_entries_pointwise;

/// Pass 3: append the tagged binary form of `v`, resolving every hash,
/// string and map header through the tables built by the earlier passes.
#[verifier::loop_isolation(false)]
#[verifier::rlimit(60)]
fn write_value_exec(
    out: &mut Vec<u8>,
    set: &IndexSet<u64, RandomState>,
    strs_tab: &Vec<(String, usize)>,
    fps_tab: &Vec<(Vec<(u64, u64)>, usize)>,
    v: &Value,
)
    requires
        no_dup(index_set_elems(*set)),
        hashes_present(index_set_elems(*set), v@),
        str_tab_inv(strs_tab@),
        strings_present(strs_map(strs_tab@), v@),
        fp_tab_inv(fps_tab@),
        fps_present(fps_map(fps_tab@), v@),
        size_of(v@) <= spec_size_limit(),
    ensures
        final(out)@ == old(out)@ + write_value(
            index_set_elems(*set),
            strs_map(strs_tab@),
            fps_map(fps_tab@),
            v@,
        ),
    decreases v,
{
    let ghost hs = index_set_elems(*set);
    let ghost strs = strs_map(strs_tab@);
    let ghost fps = fps_map(fps_tab@);
    let ghost out0 = out@;
    match v {
        Value::Bool(b) => {
            out.push(1);
            out.push(if *b { 1 } else { 0 });
            proof {
                assert(out@ =~= out0 + write_value(hs, strs, fps, v@));
            }
        },
        Value::I8(x) => {
            out.push(2);
            out.push(#[verifier::truncate] (*x as u8));
            proof {
                assert(out@ =~= out0 + write_value(hs, strs, fps, v@));
            }
        },
        Value::U8(x) => {
            out.push(3);
            out.push(*x);
            proof {
                assert(out@ =~= out0 + write_value(hs, strs, fps, v@));
            }
        },
        Value::I16(x) => {
            out.push(4);
            let mut b = u16_to_le_bytes(#[verifier::truncate] (*x as u16));
            out.append(&mut b);
            proof {
                assert(out@ =~= out0 + write_value(hs, strs, fps, v@));
            }
        },
        Value::U16(x) => {
            out.push(5);
            let mut b = u16_to_le_bytes(*x);
            out.append(&mut b);
            proof {
                assert(out@ =~= out0 + write_value(hs, strs, fps, v@));
            }
        },
        Value::I32(x) => {
            out.push(6);
            let mut b = u32_to_le_bytes(#[verifier::truncate] (*x as u32));
            out.append(&mut b);
            proof {
                assert(out@ =~= out0 + write_value(hs, strs, fps, v@));
            }
        },
        Value::U32(x) => {
            out.push(7);
            let mut b = u32_to_le_bytes(*x);
            out.append(&mut b);
            proof {
                assert(out@ =~= out0 + write_value(hs, strs, fps, v@));
            }
        },
        Value::F32(x) => {
            out.push(8);
            let mut b = u32_to_le_bytes(*x);
            out.append(&mut b);
            proof {
                assert(out@ =~= out0 + write_value(hs, strs, fps, v@));
            }
        },
        Value::Hash(h) => {
            out.push(9);
            let idx = match hash_set_index_of(set, h.0) {
                Some(idx) => idx,
                None => 0,
            };
            proof {
                lemma_first_index_of_unique(hs, h.0, idx as int);
            }
            let mut b = u32_to_le_bytes(#[verifier::truncate] (idx as u32));
            out.append(&mut b);
            proof {
                assert(out@ =~= out0 + write_value(hs, strs, fps, v@));
            }
        },
        Value::String(s) => {
            out.push(10);
            let o = match str_lookup(strs_tab, s) {
                Some(o) => o,
                None => 0,
            };
            let mut b = u32_to_le_bytes(#[verifier::truncate] (o as u32));
            out.append(&mut b);
            proof {
                assert(strs[s@] as u32 == o as u32);
                assert(out@ =~= out0 + write_value(hs, strs, fps, v@));
            }
        },
        Value::List(vs) => {
            proof {
                lemma_view_list(vs@);
                lemma_prefix_size_list_total(view_list(vs@));
                assert(v@ == ValueSpec::List(view_list(vs@)));
                lemma_hp_list_pointwise(hs, view_list(vs@));
                lemma_sp_list_pointwise(strs, view_list(vs@));
                lemma_fpp_list_pointwise(fps, view_list(vs@));
            }
            let ghost es = view_list(vs@);
            out.push(11);
            let n = vs.len();
            let mut b = u32_to_le_bytes(#[verifier::truncate] (n as u32));
            out.append(&mut b);
            let ghost out1 = out@;
            // The relative offset table: element k sits after the header,
            // the table itself, and all earlier elements.
            let mut wip: u64 = 5 + 4 * (n as u64);
            let mut k: usize = 0;
            proof {
                assert(list_offset_bytes(es, 0) =~= Seq::<u8>::empty());
                assert(out@ =~= out1 + list_offset_bytes(es, 0));
            }
            while k < n
                invariant
                    k <= n,
                    n == vs@.len(),
                    wip == 5 + 4 * es.len() + prefix_size_list(es, k as int),
                    wip <= spec_size_limit(),
                    out@ == out1 + list_offset_bytes(es, k as int),
                decreases n - k,
            {
                let mut ob = u32_to_le_bytes(#[verifier::truncate] (wip as u32));
                out.append(&mut ob);
                proof {
                    assert(list_offset_bytes(es, k as int + 1) == list_offset_bytes(es, k as int)
                        + spec_u32_to_le_bytes(
                        (5 + 4 * es.len() + prefix_size_list(es, k as int)) as u32,
                    ));
                    assert(out@ =~= out1 + list_offset_bytes(es, k as int + 1));
                    assert(prefix_size_list(es, k as int + 1) == prefix_size_list(es, k as int)
                        + size_of(es[k as int]));
                    lemma_prefix_size_list_mono(es, k as int + 1, es.len() as int);
                }
                let s = size_of_checked(&vs[k]).unwrap();
                wip = wip + s;
                k = k + 1;
            }
            let ghost out2 = out@;
            let mut k: usize = 0;
            proof {
                assert(write_list(hs, strs, fps, es.take(0)) =~= Seq::<u8>::empty());
                assert(out@ =~= out2 + write_list(hs, strs, fps, es.take(0)));
            }
            while k < n
                invariant
                    k <= n,
                    n == vs@.len(),
                    out@ == out2 + write_list(hs, strs, fps, es.take(k as int)),
                decreases n - k,
            {
                proof {
                    assert(vs@[k as int]@ == es[k as int]);
                    lemma_prefix_size_list_mono(es, 0, k as int);
                    assert(prefix_size_list(es, k as int + 1) == prefix_size_list(es, k as int)
                        + size_of(es[k as int]));
                    lemma_prefix_size_list_mono(es, k as int + 1, es.len() as int);
                }
                write_value_exec(out, set, strs_tab, fps_tab, &vs[k]);
                proof {
                    let t = es.take(k as int + 1);
                    assert(write_list(hs, strs, fps, t) == write_list(
                        hs,
                        strs,
                        fps,
                        t.drop_last(),
                    ) + write_value(hs, strs, fps, t.last()));
                    assert(t.drop_last() =~= es.take(k as int));
                    assert(t.last() == es[k as int]);
                    assert(out@ =~= out2 + write_list(hs, strs, fps, es.take(k as int + 1)));
                }
                k = k + 1;
            }
            proof {
                assert(es.take(es.len() as int) =~= es);
                assert(out@ =~= out0 + write_value(hs, strs, fps, v@));
            }
        },
        Value::Dict(entries) => {
            proof {
                lemma_view_entries(entries@);
                lemma_prefix_size_entries_total(view_entries(entries@));
                assert(v@ == ValueSpec::Dict(view_entries(entries@)));
                lemma_hp_entries_pointwise(hs, view_entries(entries@));
                lemma_sp_entries_pointwise(strs, view_entries(entries@));
                lemma_fpp_entries_pointwise(fps, view_entries(entries@));
            }
            let ghost es = view_entries(entries@);
            out.push(12);
            let n = entries.len();
            let mut b = u32_to_le_bytes(#[verifier::truncate] (n as u32));
            out.append(&mut b);
            let fp = fingerprint_exec(entries);
            let o = match fp_lookup(fps_tab, &fp) {
                Some(o) => o,
                None => 0,
            };
            let mut ob = u32_to_le_bytes(#[verifier::truncate] (o as u32));
            out.append(&mut ob);
            let ghost out2 = out@;
            proof {
                assert(fps[fingerprint(es)] as u32 == o as u32);
                assert(out2 =~= out0 + seq![12u8] + spec_u32_to_le_bytes(es.len() as u32)
                    + spec_u32_to_le_bytes(fps[fingerprint(es)] as u32));
                assert(write_entries(hs, strs, fps, es.take(0)) =~= Seq::<u8>::empty());
                assert(out@ =~= out2 + write_entries(hs, strs, fps, es.take(0)));
            }
            let mut k: usize = 0;
            while k < n
                invariant
                    k <= n,
                    n == entries@.len(),
                    out@ == out2 + write_entries(hs, strs, fps, es.take(k as int)),
                decreases n - k,
            {
                proof {
                    assert(entries@[k as int].1@ == es[k as int].1);
                    assert(hs.contains(es[k as int].0));
                    lemma_prefix_size_entries_mono(es, 0, k as int);
                    assert(prefix_size_entries(es, k as int + 1) == prefix_size_entries(
                        es,
                        k as int,
                    ) + size_of(es[k as int].1));
                    lemma_prefix_size_entries_mono(es, k as int + 1, es.len() as int);
                }
                write_value_exec(out, set, strs_tab, fps_tab, &entries[k].1);
                proof {
                    let t = es.take(k as int + 1);
                    assert(write_entries(hs, strs, fps, t) == write_entries(
                        hs,
                        strs,
                        fps,
                        t.drop_last(),
                    ) + write_value(hs, strs, fps, t.last().1));
                    assert(t.drop_last() =~= es.take(k as int));
                    assert(t.last() == es[k as int]);
                    assert(out@ =~= out2 + write_entries(hs, strs, fps, es.take(k as int + 1)));
                }
                k = k + 1;
            }
            proof {
                assert(es.take(es.len() as int) =~= es);
                assert(out@ =~= out0 + write_value(hs, strs, fps, v@));
            }
        },
    }
}

} // verus!

verus! {

use crate::wire::doc_hashes;
use crate::wire::doc_tables;
use crate::wire::spec_encode;
use crate::wire::hash_table_bytes;
use crate::wire::magic;
use crate::wire::lemma_collect_hashes_extends;
use crate::wire::lemma_collect_hashes_complete;
use crate::wire::lemma_visit_strings_complete;
use crate::wire::lemma_visit_structs_complete;
use crate::wire::lemma_visit_strings_keeps_fps;
use crate::wire::lemma_visit_structs_keeps_strs;
use crate::wire::lemma_visit_structs_extends;
use crate::wire::lemma_strings_present_mono;

/// Whether a value tree has an encoding: it is well-formed and its value
/// region, hash table and reference blob each fit the format's 32-bit
/// length fields.
pub open spec fn encodable(v: ValueSpec) -> bool {
    &&& v.wf()
    &&& size_of(v) <= spec_size_limit()
    &&& 8 * doc_hashes(v).len() <= spec_size_limit()
    &&& doc_tables(v).blob.len() <= spec_size_limit()
}

/// Encode one value tree as a complete document. Exactly the encodable
/// trees succeed, and the bytes are exactly [`spec_encode`] of the tree;
/// an ill-formed tree is refused as [`Error::MalformedValue`], an oversized
/// one as [`Error::TooLarge`].
#[verifier::loop_isolation(false)]
pub fn to_vec(value: &Value) -> (r: Result<Vec<u8>, Error>)
    ensures
        match r {
            Ok(out) => encodable(value@) && out@ == spec_encode(value@),
            Err(e) => !encodable(value@) && (e is MalformedValue <==> !value@.wf()) && (value@.wf()
                ==> e is TooLarge),
        },
{
    let ghost v = value@;
    if !value.check_wf() {
        return Err(Error::MalformedValue);
    }
    if size_of_checked(value).is_none() {
        return Err(Error::TooLarge);
    }
    // Pass 1: the hash table.
    let mut set = hash_set_new();
    collect_hashes_exec(&mut set, value);
    let ghost hs = index_set_elems(set);
    proof {
        assert(hs == doc_hashes(v));
        lemma_collect_hashes_extends(Seq::empty(), v);
        lemma_collect_hashes_complete(Seq::empty(), v);
    }
    let hlen = hash_set_len(&set);
    if hlen as u64 > 0x1fff_ffff {
        proof {
            assert(8 * doc_hashes(v).len() > spec_size_limit());
        }
        return Err(Error::TooLarge);
    }
    // Pass 2: the reference blob, strings first, then map headers.
    let mut data: Vec<u8> = Vec::new();
    let mut stab: Vec<(String, usize)> = Vec::new();
    let ghost t0 = RefTables { blob: Seq::empty(), strs: Map::empty(), fps: Map::empty() };
    proof {
        assert(strs_map(stab@) =~= Map::<Seq<char>, nat>::empty());
        assert(data@ =~= Seq::<u8>::empty());
        assert(RefTables { blob: data@, strs: strs_map(stab@), fps: t0.fps } =~= t0);
    }
    visit_strings_exec(&mut data, &mut stab, Ghost(Map::empty()), value);
    let ghost t1 = visit_strings(t0, v);
    let mut ftab: Vec<(Vec<(u64, u64)>, usize)> = Vec::new();
    proof {
        assert(fps_map(ftab@) =~= Map::<Seq<(u64, nat)>, nat>::empty());
        lemma_visit_strings_keeps_fps(t0, v);
        assert(RefTables { blob: data@, strs: t1.strs, fps: fps_map(ftab@) } =~= t1);
    }
    visit_structs_exec(&set, &mut data, &mut ftab, Ghost(t1.strs), value);
    let ghost t2 = visit_structs(hs, t1, v);
    proof {
        assert(t2 == doc_tables(v));
        lemma_visit_structs_keeps_strs(hs, t1, v);
        assert(strs_map(stab@) == t2.strs);
        assert(fps_map(ftab@) == t2.fps);
        assert(data@ == t2.blob);
    }
    if data.len() as u64 > 0xffff_ffff {
        return Err(Error::TooLarge);
    }
    // Final pass: assemble the document.
    let mut out: Vec<u8> = Vec::new();
    out.push(0x70);
    out.push(0x61);
    out.push(0x72);
    out.push(0x61);
    out.push(0x63);
    out.push(0x6f);
    out.push(0x62);
    out.push(0x6e);
    proof {
        assert(out@ =~= magic());
    }
    let mut b = u32_to_le_bytes(8 * (hlen as u32));
    out.append(&mut b);
    let mut b2 = u32_to_le_bytes(data.len() as u32);
    out.append(&mut b2);
    let ghost out1 = out@;
    let mut i: usize = 0;
    proof {
        assert(hash_table_bytes(hs.take(0)) =~= Seq::<u8>::empty());
        assert(out@ =~= out1 + hash_table_bytes(hs.take(0)));
    }
    while i < hlen
        invariant
            i <= hlen,
            hlen == hs.len(),
            hs == index_set_elems(set),
            out@ == out1 + hash_table_bytes(hs.take(i as int)),
        decreases hlen - i,
    {
        let h = hash_set_get(&set, i);
        let mut hb = u64_to_le_bytes(h);
        out.append(&mut hb);
        proof {
            let t = hs.take(i as int + 1);
            assert(hash_table_bytes(t) == hash_table_bytes(t.drop_last()) + spec_u64_to_le_bytes(
                t.last(),
            ));
            assert(t.drop_last() =~= hs.take(i as int));
            assert(t.last() == hs[i as int]);
            assert(out@ =~= out1 + hash_table_bytes(hs.take(i as int + 1)));
        }
        i = i + 1;
    }
    proof {
        assert(hs.take(hs.len() as int) =~= hs);
    }
    let mut blob = data;
    out.append(&mut blob);
    proof {
        lemma_visit_strings_complete(t0, v);
        lemma_visit_structs_extends(hs, t1, v);
        lemma_strings_present_mono(t1, t2, v);
        lemma_visit_structs_complete(hs, t1, v);
    }
    write_value_exec(&mut out, &set, &stab, &ftab, value);
    proof {
        assert(out@ =~= spec_encode(v));
    }
    Ok(out)
}

} // verus!

verus! {

use crate::wire::parse_doc;
use crate::wire::lemma_round_trip;

/// Round trip at the library's boundary: every encodable tree decodes from
/// its own encoding to exactly itself, so `from_slice` of what `to_vec`
/// produced returns a structurally equal tree.
pub proof fn lemma_encodable_round_trip(v: ValueSpec)
    requires
        encodable(v),
    ensures
        parse_doc(spec_encode(v)) == Ok::<_, crate::wire::DecodeErr>(v),
{
    lemma_round_trip(v);
}

} // verus!
