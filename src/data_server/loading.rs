//! Building a registry from its stored form: ids come from the stored id
//! map where it knows the name, and are allocated above its largest id
//! otherwise.

use crate::common::{ClassID, ProfilID};
use crate::data_server::keyed::{
    has_key, index_of, keys_unique, lemma_index_of, lemma_map_vals, lemma_map_vals_ops,
    lemma_upsert, map_vals, upsert, value_of,
};
use crate::data_server::mutation_tracker::MutationTracker;
use crate::data_server::{
    find_profil, profiles_view, serialization, strings_view, Class, ClassView, DataServer,
    Profil, ProfilView, ServerView,
};
use vstd::prelude::*;

verus! {

/// The name-to-id table of a stored mapping; a later pair wins.
pub open spec fn name_table<I>(mapping: Seq<(I, Seq<char>)>) -> Seq<(Seq<char>, I)>
    decreases mapping.len(),
{
    if mapping.len() == 0 {
        Seq::empty()
    } else {
        upsert(name_table(mapping.drop_last()), mapping.last().1, mapping.last().0)
    }
}

/// The largest profile id of a stored mapping, 0 when it is empty.
pub open spec fn max_profil_id(mapping: Seq<(ProfilID, Seq<char>)>) -> u32
    decreases mapping.len(),
{
    if mapping.len() == 0 {
        0
    } else {
        let m = max_profil_id(mapping.drop_last());
        if mapping.last().0.0 > m { mapping.last().0.0 } else { m }
    }
}

/// The largest class id of a stored mapping, 0 when it is empty.
pub open spec fn max_class_id(mapping: Seq<(ClassID, Seq<char>)>) -> u32
    decreases mapping.len(),
{
    if mapping.len() == 0 {
        0
    } else {
        let m = max_class_id(mapping.drop_last());
        if mapping.last().0.0 > m { mapping.last().0.0 } else { m }
    }
}

/// Loading the stored profiles in order, each under the id that the table
/// gives its name, or under the next fresh id, which the table then keeps;
/// a profile loaded under an id already used replaces the earlier one.
/// Gives the final table, the last id used and the profiles.
pub open spec fn load_profiles(
    table: Seq<(Seq<char>, ProfilID)>,
    ceiling: u32,
    input: Seq<ProfilView>,
) -> (Seq<(Seq<char>, ProfilID)>, u32, Seq<(ProfilID, ProfilView)>)
    decreases input.len(),
{
    if input.len() == 0 {
        (table, ceiling, Seq::empty())
    } else {
        let prev = load_profiles(table, ceiling, input.drop_last());
        let p = input.last();
        if has_key(prev.0, p.name) {
            (prev.0, prev.1, upsert(prev.2, value_of(prev.0, p.name), p))
        } else {
            let id = ProfilID((prev.1 + 1) as u32);
            (prev.0.push((p.name, id)), (prev.1 + 1) as u32, upsert(prev.2, id, p))
        }
    }
}

/// The name index of loaded profiles.
pub open spec fn index_names(ps: Seq<(ProfilID, ProfilView)>) -> Seq<(Seq<char>, ProfilID)>
    decreases ps.len(),
{
    if ps.len() == 0 {
        Seq::empty()
    } else {
        upsert(index_names(ps.drop_last()), ps.last().1.name, ps.last().0)
    }
}

/// The ids of the names that the table knows, each once, in order.
pub open spec fn resolve_members(table: Seq<(Seq<char>, ProfilID)>, people: Seq<Seq<char>>) -> Seq<ProfilID>
    decreases people.len(),
{
    if people.len() == 0 {
        Seq::empty()
    } else {
        let m = resolve_members(table, people.drop_last());
        let n = people.last();
        if has_key(table, n) && !m.contains(value_of(table, n)) {
            m.push(value_of(table, n))
        } else {
            m
        }
    }
}

/// Loading the stored classes in order, each under the id that the class
/// table gives its name, or under the next fresh id (not kept: two unknown
/// classes of one name get two ids). Gives the last id used and the classes.
pub open spec fn load_classes(
    ctable: Seq<(Seq<char>, ClassID)>,
    ceiling: u32,
    ptable: Seq<(Seq<char>, ProfilID)>,
    input: Seq<(Seq<char>, Seq<Seq<char>>)>,
) -> (u32, Seq<(ClassID, ClassView)>)
    decreases input.len(),
{
    if input.len() == 0 {
        (ceiling, Seq::empty())
    } else {
        let prev = load_classes(ctable, ceiling, ptable, input.drop_last());
        let name = input.last().0;
        let class = ClassView { name, members: resolve_members(ptable, input.last().1) };
        if has_key(ctable, name) {
            (prev.0, upsert(prev.1, value_of(ctable, name), class))
        } else {
            ((prev.0 + 1) as u32, upsert(prev.1, ClassID((prev.0 + 1) as u32), class))
        }
    }
}

pub open spec fn stored_profiles(r: serialization::PeopleRepartition) -> Seq<ProfilView> {
    r.profiles@.map_values(|p: serialization::Profil| p@)
}

pub open spec fn stored_classes(r: serialization::PeopleRepartition) -> Seq<(Seq<char>, Seq<Seq<char>>)> {
    r.classes@.map_values(|c: serialization::Class| (c.name@, strings_view(c.people)))
}

pub open spec fn stored_profil_mapping(m: serialization::IdMap) -> Seq<(ProfilID, Seq<char>)> {
    m.profil_mapping@.map_values(|e: (ProfilID, String)| (e.0, e.1@))
}

pub open spec fn stored_class_mapping(m: serialization::IdMap) -> Seq<(ClassID, Seq<char>)> {
    m.class_mapping@.map_values(|e: (ClassID, String)| (e.0, e.1@))
}

/// The registry that a stored repartition and id map describe, with an
/// empty ledger.
pub open spec fn loaded(r: serialization::PeopleRepartition, m: serialization::IdMap) -> ServerView {
    let pm = stored_profil_mapping(m);
    let cm = stored_class_mapping(m);
    let lp = load_profiles(name_table(pm), max_profil_id(pm), stored_profiles(r));
    let lc = load_classes(name_table(cm), max_class_id(cm), lp.0, stored_classes(r));
    ServerView {
        profiles: lp.2,
        profile_ceiling: lp.1,
        names: index_names(lp.2),
        classes: lc.1,
        class_ceiling: lc.0,
        ledger: Seq::empty(),
    }
}

pub open spec fn table_view<I>(v: Seq<(String, I)>) -> Seq<(Seq<char>, I)> {
    v.map_values(|e: (String, I)| (e.0@, e.1))
}

pub open spec fn classes_view(v: Seq<(ClassID, Class)>) -> Seq<(ClassID, ClassView)> {
    map_vals(v, |c: Class| c@)
}

/// The position of `name` in a name table, if it is there.
fn find_in_table<I>(v: &Vec<(String, I)>, name: &String) -> (r: Option<usize>)
    ensures
        match r {
            None => !has_key(table_view(v@), name@),
            Some(i) => i < v@.len() && v@[i as int].0@ == name@,
        },
{
    let mut i: usize = 0;
    while i < v.len()
        invariant
            i <= v@.len(),
            forall|j: int| 0 <= j < i ==> v@[j].0@ != name@,
        decreases v.len() - i,
    {
        if v[i].0 == *name {
            return Some(i);
        }
        i = i + 1;
    }
    assert(!has_key(table_view(v@), name@)) by {
        if has_key(table_view(v@), name@) {
            let j = choose|j: int| 0 <= j < table_view(v@).len() && table_view(v@)[j].0 == name@;
            assert(v@[j].0@ == name@);
        }
    }
    None
}

/// Sets `name` to `id` in a name table.
fn upsert_name<I>(v: &mut Vec<(String, I)>, name: String, id: I)
    requires
        keys_unique(table_view(old(v)@)),
    ensures
        table_view(final(v)@) == upsert(table_view(old(v)@), name@, id),
{
    let ghost tv = table_view(v@);
    match find_in_table(v, &name) {
        Some(i) => {
            proof { lemma_index_of(tv, i as int); }
            v[i] = (name, id);
            assert(table_view(v@) =~= upsert(tv, name@, id));
        },
        None => {
            v.push((name, id));
            assert(table_view(v@) =~= upsert(tv, name@, id));
        },
    }
}

/// Sets the profile under `id`.
fn upsert_profil(v: &mut Vec<(ProfilID, Profil)>, id: ProfilID, p: Profil)
    requires
        keys_unique(old(v)@),
    ensures
        profiles_view(final(v)@) == upsert(profiles_view(old(v)@), id, p@),
        keys_unique(final(v)@),
{
    let ghost before = v@;
    proof {
        lemma_map_vals(before, |q: Profil| q@);
        lemma_map_vals_ops(before, |q: Profil| q@);
        lemma_upsert(before, id, p);
    }
    match find_profil(v, id) {
        Some(i) => {
            proof {
                lemma_index_of(before, i as int);
                lemma_index_of(profiles_view(before), i as int);
            }
            v[i] = (id, p);
            assert(v@ == upsert(before, id, p));
        },
        None => {
            assert(!has_key(profiles_view(before), id));
            v.push((id, p));
            assert(v@ == upsert(before, id, p));
        },
    }
}

/// The position of `id` among the pairs, if it is there.
fn find_class_id<V>(v: &Vec<(ClassID, V)>, id: ClassID) -> (r: Option<usize>)
    ensures
        match r {
            None => !has_key(v@, id),
            Some(i) => i < v@.len() && v@[i as int].0 == id,
        },
{
    let mut i: usize = 0;
    while i < v.len()
        invariant
            i <= v@.len(),
            forall|j: int| 0 <= j < i ==> v@[j].0 != id,
        decreases v.len() - i,
    {
        if v[i].0 == id {
            return Some(i);
        }
        i = i + 1;
    }
    None
}

/// Sets the class under `id`.
fn upsert_class(v: &mut Vec<(ClassID, Class)>, id: ClassID, c: Class)
    requires
        keys_unique(old(v)@),
    ensures
        classes_view(final(v)@) == upsert(classes_view(old(v)@), id, c@),
        keys_unique(final(v)@),
{
    let ghost before = v@;
    proof {
        lemma_map_vals(before, |q: Class| q@);
        lemma_map_vals_ops(before, |q: Class| q@);
        lemma_upsert(before, id, c);
    }
    match find_class_id(v, id) {
        Some(i) => {
            proof {
                lemma_index_of(before, i as int);
                lemma_index_of(classes_view(before), i as int);
            }
            v[i] = (id, c);
            assert(v@ == upsert(before, id, c));
        },
        None => {
            assert(!has_key(classes_view(before), id));
            v.push((id, c));
            assert(v@ == upsert(before, id, c));
        },
    }
}

/// The name table of a stored profile mapping, and its largest id.
fn profil_table(m: &Vec<(ProfilID, String)>) -> (r: (Vec<(String, ProfilID)>, u32))
    ensures
        table_view(r.0@) == name_table(m@.map_values(|e: (ProfilID, String)| (e.0, e.1@))),
        r.1 == max_profil_id(m@.map_values(|e: (ProfilID, String)| (e.0, e.1@))),
        keys_unique(table_view(r.0@)),
        forall|j: int| 0 <= j < r.0@.len() ==> #[trigger] r.0@[j].1.0 <= r.1,
{
    let ghost mv = m@.map_values(|e: (ProfilID, String)| (e.0, e.1@));
    let mut t: Vec<(String, ProfilID)> = Vec::new();
    let mut max: u32 = 0;
    let mut i: usize = 0;
    assert(table_view(t@) =~= name_table(mv.subrange(0, 0)));
    while i < m.len()
        invariant
            i <= m@.len(),
            mv == m@.map_values(|e: (ProfilID, String)| (e.0, e.1@)),
            table_view(t@) == name_table(mv.subrange(0, i as int)),
            max == max_profil_id(mv.subrange(0, i as int)),
            keys_unique(table_view(t@)),
            forall|j: int| 0 <= j < t@.len() ==> #[trigger] t@[j].1.0 <= max,
        decreases m.len() - i,
    {
        proof {
            assert(mv.subrange(0, i + 1).drop_last() =~= mv.subrange(0, i as int));
            assert(mv.subrange(0, i + 1).last() == mv[i as int]);
        }
        let ghost before = table_view(t@);
        let ghost old_t = t@;
        let id = m[i].0;
        upsert_name(&mut t, m[i].1.clone(), id);
        proof { lemma_upsert(before, m@[i as int].1@, id); }
        if id.0 > max {
            max = id.0;
        }
        proof {
            assert forall|j: int| 0 <= j < t@.len() implies #[trigger] t@[j].1.0 <= max by {
                assert(table_view(t@)[j].1 == t@[j].1);
                if j < old_t.len() {
                    assert(before[j].1 == old_t[j].1);
                }
            }
        }
        i = i + 1;
    }
    assert(mv.subrange(0, m@.len() as int) =~= mv);
    (t, max)
}

/// The name table of a stored class mapping, and its largest id.
fn class_table(m: &Vec<(ClassID, String)>) -> (r: (Vec<(String, ClassID)>, u32))
    ensures
        table_view(r.0@) == name_table(m@.map_values(|e: (ClassID, String)| (e.0, e.1@))),
        r.1 == max_class_id(m@.map_values(|e: (ClassID, String)| (e.0, e.1@))),
        keys_unique(table_view(r.0@)),
        forall|j: int| 0 <= j < r.0@.len() ==> #[trigger] r.0@[j].1.0 <= r.1,
{
    let ghost mv = m@.map_values(|e: (ClassID, String)| (e.0, e.1@));
    let mut t: Vec<(String, ClassID)> = Vec::new();
    let mut max: u32 = 0;
    let mut i: usize = 0;
    assert(table_view(t@) =~= name_table(mv.subrange(0, 0)));
    while i < m.len()
        invariant
            i <= m@.len(),
            mv == m@.map_values(|e: (ClassID, String)| (e.0, e.1@)),
            table_view(t@) == name_table(mv.subrange(0, i as int)),
            max == max_class_id(mv.subrange(0, i as int)),
            keys_unique(table_view(t@)),
            forall|j: int| 0 <= j < t@.len() ==> #[trigger] t@[j].1.0 <= max,
        decreases m.len() - i,
    {
        proof {
            assert(mv.subrange(0, i + 1).drop_last() =~= mv.subrange(0, i as int));
            assert(mv.subrange(0, i + 1).last() == mv[i as int]);
        }
        let ghost before = table_view(t@);
        let ghost old_t = t@;
        let id = m[i].0;
        upsert_name(&mut t, m[i].1.clone(), id);
        proof { lemma_upsert(before, m@[i as int].1@, id); }
        if id.0 > max {
            max = id.0;
        }
        proof {
            assert forall|j: int| 0 <= j < t@.len() implies #[trigger] t@[j].1.0 <= max by {
                assert(table_view(t@)[j].1 == t@[j].1);
                if j < old_t.len() {
                    assert(before[j].1 == old_t[j].1);
                }
            }
        }
        i = i + 1;
    }
    assert(mv.subrange(0, m@.len() as int) =~= mv);
    (t, max)
}

/// The ids of the names that the table knows, each once, in order.
fn resolve_members_of(table: &Vec<(String, ProfilID)>, people: &Vec<String>) -> (r: Vec<ProfilID>)
    requires
        keys_unique(table_view(table@)),
    ensures
        r@ == resolve_members(table_view(table@), strings_view(*people)),
        r@.no_duplicates(),
{
    let ghost tv = table_view(table@);
    let ghost pv = strings_view(*people);
    let mut r: Vec<ProfilID> = Vec::new();
    let mut j: usize = 0;
    while j < people.len()
        invariant
            j <= people@.len(),
            tv == table_view(table@),
            keys_unique(tv),
            pv == strings_view(*people),
            r@ == resolve_members(tv, pv.subrange(0, j as int)),
            r@.no_duplicates(),
        decreases people.len() - j,
    {
        proof {
            assert(pv.subrange(0, j + 1).drop_last() =~= pv.subrange(0, j as int));
            assert(pv.subrange(0, j + 1).last() == pv[j as int]);
        }
        match find_in_table(table, &people[j]) {
            Some(k) => {
                proof {
                    assert(tv[k as int].0 == pv[j as int]);
                }
                let id = table[k].1;
                proof { lemma_index_of(tv, k as int); }
                if !super::contains_id(&r, id) {
                    r.push(id);
                }
            },
            None => {},
        }
        j = j + 1;
    }
    assert(pv.subrange(0, people@.len() as int) =~= pv);
    r
}

impl DataServer {
    /// Builds the registry from its stored form (see `loaded`); the result
    /// is clean.
    pub fn new(repartition: serialization::PeopleRepartition, id_map: serialization::IdMap) -> (r: Self)
        requires
            max_profil_id(stored_profil_mapping(id_map)) + repartition.profiles@.len() <= u32::MAX,
            max_class_id(stored_class_mapping(id_map)) + repartition.classes@.len() <= u32::MAX,
        ensures
            r.wf(),
            r@ == loaded(repartition, id_map),
            !r.profiles_dirty(),
            !r.nicknames_dirty(),
    {
        let ghost pm = stored_profil_mapping(id_map);
        let ghost input = stored_profiles(repartition);
        let (mut table, max) = profil_table(&id_map.profil_mapping);
        proof {
            assert(pm == id_map.profil_mapping@.map_values(|e: (ProfilID, String)| (e.0, e.1@)));
            assert forall|k: Seq<char>| #[trigger] has_key(table_view(table@), k) implies value_of(table_view(table@), k).0 <= max by {
                let j = index_of(table_view(table@), k);
                lemma_index_of(table_view(table@), j);
                assert(table_view(table@)[j].1 == table@[j].1);
            }
            assert(input.subrange(0, 0) =~= Seq::<ProfilView>::empty());
            assert(profiles_view(Seq::<(ProfilID, Profil)>::empty()) =~= Seq::<(ProfilID, ProfilView)>::empty());
        }
        let mut last = max;
        let mut ps: Vec<(ProfilID, Profil)> = Vec::new();
        let mut i: usize = 0;
        while i < repartition.profiles.len()
            invariant
                i <= repartition.profiles@.len(),
                input == stored_profiles(repartition),
                max_profil_id(pm) + repartition.profiles@.len() <= u32::MAX,
                (table_view(table@), last, profiles_view(ps@)) == load_profiles(name_table(pm), max_profil_id(pm), input.subrange(0, i as int)),
                keys_unique(table_view(table@)),
                keys_unique(ps@),
                last <= max_profil_id(pm) + i,
                forall|k: Seq<char>| #[trigger] has_key(table_view(table@), k) ==> value_of(table_view(table@), k).0 <= last,
                forall|k: ProfilID| #[trigger] has_key(ps@, k) ==> k.0 <= last,
            decreases repartition.profiles.len() - i,
        {
            proof {
                assert(input.subrange(0, i + 1).drop_last() =~= input.subrange(0, i as int));
                assert(input.subrange(0, i + 1).last() == input[i as int]);
            }
            let ghost tv0 = table_view(table@);
            let ghost last0 = last;
            let p = &repartition.profiles[i];
            let id = match find_in_table(&table, &p.identity.name) {
                Some(k) => {
                    proof {
                        lemma_index_of(tv0, k as int);
                        assert(tv0[k as int].1 == table@[k as int].1);
                        assert(value_of(tv0, p.identity.name@).0 <= last);
                    }
                    table[k].1
                },
                None => {
                    last = last + 1;
                    let id = ProfilID(last);
                    table.push((p.identity.name.clone(), id));
                    proof {
                        lemma_upsert(tv0, p.identity.name@, id);
                        assert(table_view(table@) =~= tv0.push((p.identity.name@, id)));
                        assert(upsert(tv0, p.identity.name@, id) == tv0.push((p.identity.name@, id)));
                        assert forall|k: Seq<char>| #[trigger] has_key(table_view(table@), k) implies value_of(table_view(table@), k).0 <= last by {
                            if k != p.identity.name@ {
                                assert(has_key(tv0, k));
                            }
                        }
                    }
                    id
                },
            };
            assert(id.0 <= last);
            let ghost ps0 = ps@;
            let q = Profil { identity: p.identity.duplicate(), permissions: p.permissions };
            assert(q@ == input[i as int]);
            upsert_profil(&mut ps, id, q);
            proof {
                lemma_map_vals(ps0, |x: Profil| x@);
                lemma_map_vals(ps@, |x: Profil| x@);
                lemma_upsert(profiles_view(ps0), id, q@);
                assert forall|k: ProfilID| #[trigger] has_key(ps@, k) implies k.0 <= last by {
                    if k != id {
                        assert(has_key(profiles_view(ps@), k));
                        assert(has_key(profiles_view(ps0), k));
                        assert(has_key(ps0, k));
                    }
                }
            }
            i = i + 1;
        }
        proof {
            assert(input.subrange(0, repartition.profiles@.len() as int) =~= input);
        }
        let ghost psv = profiles_view(ps@);
        proof { lemma_map_vals(ps@, |x: Profil| x@); }
        let mut names: Vec<(String, ProfilID)> = Vec::new();
        let mut k: usize = 0;
        assert(table_view(names@) =~= index_names(psv.subrange(0, 0)));
        while k < ps.len()
            invariant
                k <= ps@.len(),
                psv == profiles_view(ps@),
                psv.len() == ps@.len(),
                keys_unique(psv),
                forall|j: int| 0 <= j < ps@.len() ==> #[trigger] psv[j] == (ps@[j].0, ps@[j].1@),
                table_view(names@) == index_names(psv.subrange(0, k as int)),
                keys_unique(table_view(names@)),
                forall|n: Seq<char>| #[trigger] has_key(table_view(names@), n) ==> has_key(psv, value_of(table_view(names@), n))
                    && value_of(psv, value_of(table_view(names@), n)).name == n,
            decreases ps.len() - k,
        {
            proof {
                assert(psv.subrange(0, k + 1).drop_last() =~= psv.subrange(0, k as int));
                assert(psv.subrange(0, k + 1).last() == psv[k as int]);
            }
            let ghost nv0 = table_view(names@);
            upsert_name(&mut names, ps[k].1.identity.name.clone(), ps[k].0);
            proof {
                lemma_upsert(nv0, psv[k as int].1.name, psv[k as int].0);
                lemma_index_of(psv, k as int);
                assert forall|n: Seq<char>| #[trigger] has_key(table_view(names@), n) implies has_key(psv, value_of(table_view(names@), n))
                    && value_of(psv, value_of(table_view(names@), n)).name == n by {
                    if n != psv[k as int].1.name {
                        assert(has_key(nv0, n));
                    }
                }
            }
            k = k + 1;
        }
        proof {
            assert(psv.subrange(0, ps@.len() as int) =~= psv);
        }
        let ghost cm = stored_class_mapping(id_map);
        let ghost cinput = stored_classes(repartition);
        let ghost ptable = table_view(table@);
        let (ctable, cmax) = class_table(&id_map.class_mapping);
        proof {
            assert(cm == id_map.class_mapping@.map_values(|e: (ClassID, String)| (e.0, e.1@)));
            assert(cinput.subrange(0, 0) =~= Seq::<(Seq<char>, Seq<Seq<char>>)>::empty());
            assert(classes_view(Seq::<(ClassID, Class)>::empty()) =~= Seq::<(ClassID, ClassView)>::empty());
        }
        let mut clast = cmax;
        let mut cs: Vec<(ClassID, Class)> = Vec::new();
        let mut c: usize = 0;
        while c < repartition.classes.len()
            invariant
                c <= repartition.classes@.len(),
                cinput == stored_classes(repartition),
                ptable == table_view(table@),
                keys_unique(ptable),
                max_class_id(cm) + repartition.classes@.len() <= u32::MAX,
                table_view(ctable@) == name_table(cm),
                keys_unique(table_view(ctable@)),
                forall|j: int| 0 <= j < ctable@.len() ==> #[trigger] ctable@[j].1.0 <= cmax,
                cmax == max_class_id(cm),
                (clast, classes_view(cs@)) == load_classes(name_table(cm), max_class_id(cm), ptable, cinput.subrange(0, c as int)),
                keys_unique(cs@),
                cmax <= clast <= max_class_id(cm) + c,
                forall|k: ClassID| #[trigger] has_key(classes_view(cs@), k) ==> k.0 <= clast && value_of(classes_view(cs@), k).members.no_duplicates(),
            decreases repartition.classes.len() - c,
        {
            proof {
                assert(cinput.subrange(0, c + 1).drop_last() =~= cinput.subrange(0, c as int));
                assert(cinput.subrange(0, c + 1).last() == cinput[c as int]);
            }
            let class = &repartition.classes[c];
            let members = resolve_members_of(&table, &class.people);
            let id = match find_in_table(&ctable, &class.name) {
                Some(k) => {
                    proof {
                        lemma_index_of(table_view(ctable@), k as int);
                        assert(table_view(ctable@)[k as int].1 == ctable@[k as int].1);
                    }
                    ctable[k].1
                },
                None => {
                    clast = clast + 1;
                    ClassID(clast)
                },
            };
            assert(id.0 <= clast);
            let ghost cs0 = cs@;
            let q = Class { name: class.name.clone(), profiles: members };
            upsert_class(&mut cs, id, q);
            proof {
                lemma_map_vals(cs0, |x: Class| x@);
                lemma_map_vals(cs@, |x: Class| x@);
                lemma_upsert(classes_view(cs0), id, q@);
                assert forall|k: ClassID| #[trigger] has_key(classes_view(cs@), k) implies k.0 <= clast
                    && value_of(classes_view(cs@), k).members.no_duplicates() by {
                    if k != id {
                        assert(has_key(classes_view(cs0), k));
                    }
                }
            }
            c = c + 1;
        }
        proof {
            assert(cinput.subrange(0, repartition.classes@.len() as int) =~= cinput);
        }
        let r = DataServer {
            id_to_profil: MutationTracker::new(ps),
            free_profil_id_beginning: last,
            name_to_id: MutationTracker::new(names),
            classes: MutationTracker::new(cs),
            free_class_id_beginning: clast,
            nick_name_proposition: MutationTracker::new(Vec::new()),
        };
        proof {
            r.lemma_view_facts();
            let v = r@;
            assert(v.names =~= table_view(names@));
            assert(v.ledger =~= Seq::<(ProfilID, Seq<crate::data_server::PropositionView>)>::empty());
            assert(v == loaded(repartition, id_map));
            lemma_map_vals(cs@, |x: Class| x@);
            assert forall|j: int| 0 <= j < v.profiles.len() implies #[trigger] v.profiles[j].0.0 <= v.profile_ceiling by {
                assert(has_key(ps@, ps@[j].0));
            }
            assert forall|j: int| 0 <= j < v.classes.len() implies #[trigger] v.classes[j].0.0 <= v.class_ceiling by {
                assert(has_key(classes_view(cs@), v.classes[j].0));
            }
            assert forall|j: int| 0 <= j < v.classes.len() implies (#[trigger] v.classes[j]).1.members.no_duplicates() by {
                assert(has_key(classes_view(cs@), v.classes[j].0));
                lemma_index_of(v.classes, j);
            }
            v.lemma_names_by_key();
        }
        r
    }
}

} // verus!
