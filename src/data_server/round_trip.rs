//! Saving and loading again: the stored form of a registry describes the
//! same profiles and classes under the same ids.

use crate::common::{ClassID, ProfilID};
use crate::data_server::keyed::{has_key, index_of, keys_unique, lemma_index_of, lemma_upsert, value_of};
use crate::data_server::loading::{
    index_names, load_classes, load_profiles, loaded, max_class_id, max_profil_id, name_table, resolve_members,
    stored_class_mapping, stored_classes, stored_profil_mapping, stored_profiles,
};
use crate::data_server::order::is_permutation;
use crate::data_server::serialization::{IdMap, PeopleRepartition};
use crate::data_server::{strings_view, ClassView, ProfilView, ServerView};
use vstd::prelude::*;

verus! {

/// No two pairs carry the same name.
pub open spec fn names_distinct<I>(m: Seq<(I, Seq<char>)>) -> bool {
    forall|i: int, j: int| 0 <= i < m.len() && 0 <= j < m.len() && m[i].1 == m[j].1 ==> i == j
}

proof fn lemma_name_table<I>(pm: Seq<(I, Seq<char>)>)
    requires
        names_distinct(pm),
    ensures
        keys_unique(name_table(pm)),
        forall|i: int| 0 <= i < pm.len() ==> has_key(name_table(pm), #[trigger] pm[i].1) && value_of(name_table(pm), pm[i].1) == pm[i].0,
    decreases pm.len(),
{
    if pm.len() > 0 {
        let q = pm.drop_last();
        lemma_name_table(q);
        lemma_upsert(name_table(q), pm.last().1, pm.last().0);
        assert forall|i: int| 0 <= i < pm.len() implies has_key(name_table(pm), #[trigger] pm[i].1) && value_of(name_table(pm), pm[i].1) == pm[i].0 by {
            if i < pm.len() - 1 {
                assert(pm[i] == q[i]);
                assert(pm[i].1 != pm.last().1);
            }
        }
    }
}

proof fn lemma_max_profil_id(pm: Seq<(ProfilID, Seq<char>)>)
    ensures
        forall|i: int| 0 <= i < pm.len() ==> (#[trigger] pm[i]).0.0 <= max_profil_id(pm),
    decreases pm.len(),
{
    if pm.len() > 0 {
        lemma_max_profil_id(pm.drop_last());
        assert forall|i: int| 0 <= i < pm.len() implies (#[trigger] pm[i]).0.0 <= max_profil_id(pm) by {
            if i < pm.len() - 1 {
                assert(pm[i] == pm.drop_last()[i]);
            }
        }
    }
}

/// Loading profiles whose names the table all knows, under distinct ids.
proof fn lemma_load_known(table: Seq<(Seq<char>, ProfilID)>, c: u32, input: Seq<ProfilView>)
    requires
        keys_unique(table),
        forall|k: int| 0 <= k < input.len() ==> has_key(table, (#[trigger] input[k]).name),
        forall|k: int, l: int| 0 <= k < input.len() && 0 <= l < input.len() && k != l ==> value_of(table, (#[trigger] input[k]).name) != value_of(table, (#[trigger] input[l]).name),
    ensures
        load_profiles(table, c, input).0 == table,
        keys_unique(load_profiles(table, c, input).2),
        forall|k: int| 0 <= k < input.len() ==> has_key(load_profiles(table, c, input).2, value_of(table, (#[trigger] input[k]).name))
            && value_of(load_profiles(table, c, input).2, value_of(table, input[k].name)) == input[k],
        forall|id: ProfilID| #[trigger] has_key(load_profiles(table, c, input).2, id) ==> exists|k: int| 0 <= k < input.len() && value_of(table, (#[trigger] input[k]).name) == id,
    decreases input.len(),
{
    if input.len() > 0 {
        let q = input.drop_last();
        assert forall|k: int| 0 <= k < q.len() implies has_key(table, (#[trigger] q[k]).name) by {
            assert(q[k] == input[k]);
        }
        assert forall|k: int, l: int| 0 <= k < q.len() && 0 <= l < q.len() && k != l implies value_of(table, (#[trigger] q[k]).name) != value_of(table, (#[trigger] q[l]).name) by {
            assert(q[k] == input[k] && q[l] == input[l]);
        }
        lemma_load_known(table, c, q);
        let prev = load_profiles(table, c, q);
        let last = input.last();
        assert(input[input.len() - 1] == last);
        let id = value_of(table, last.name);
        assert(has_key(prev.0, last.name));
        lemma_upsert(prev.2, id, last);
        assert forall|k: int| 0 <= k < input.len() implies has_key(load_profiles(table, c, input).2, value_of(table, (#[trigger] input[k]).name))
            && value_of(load_profiles(table, c, input).2, value_of(table, input[k].name)) == input[k] by {
            if k < input.len() - 1 {
                assert(q[k] == input[k]);
            }
        }
        assert forall|x: ProfilID| #[trigger] has_key(load_profiles(table, c, input).2, x) implies exists|k: int| 0 <= k < input.len() && value_of(table, (#[trigger] input[k]).name) == x by {
            if x != id {
                assert(has_key(prev.2, x));
                let k = choose|k: int| 0 <= k < q.len() && value_of(table, (#[trigger] q[k]).name) == x;
                assert(q[k] == input[k]);
            } else {
                assert(value_of(table, input[input.len() - 1].name) == x);
            }
        }
    }
}

/// The profiles described by a registry's stored form are the registry's
/// own, under the same ids, when no two of its profiles share a name.
pub proof fn lemma_round_trip_profiles(s: ServerView, r: PeopleRepartition, m: IdMap)
    requires
        s.wf(),
        s.is_repartition_of(r),
        s.is_id_map_of(m),
        forall|i: int, j: int| 0 <= i < s.profiles.len() && 0 <= j < s.profiles.len() && s.profiles[i].1.name == s.profiles[j].1.name ==> i == j,
    ensures
        keys_unique(loaded(r, m).profiles),
        forall|id: ProfilID| #[trigger] has_key(loaded(r, m).profiles, id) == s.has_profile(id),
        forall|id: ProfilID| s.has_profile(id) ==> #[trigger] value_of(loaded(r, m).profiles, id) == s.profile(id),
{
    let pm = stored_profil_mapping(m);
    assert(pm =~= s.profiles.map_values(|e: (ProfilID, ProfilView)| (e.0, e.1.name))) by {
        assert forall|i: int| 0 <= i < pm.len() implies pm[i] == s.profiles.map_values(|e: (ProfilID, ProfilView)| (e.0, e.1.name))[i] by {
            assert(m.profil_mapping@.map_values(|e: (ProfilID, String)| crate::data_server::pair_view(e))[i] == s.profiles.map_values(|e: (ProfilID, ProfilView)| (e.0, e.1.name))[i]);
        }
    }
    assert forall|i: int| 0 <= i < pm.len() implies #[trigger] pm[i] == (s.profiles[i].0, s.profiles[i].1.name) by {}
    assert(names_distinct(pm));
    lemma_name_table(pm);
    let table = name_table(pm);
    let input = stored_profiles(r);
    let order = choose|order: Seq<usize>| {
        &&& is_permutation(order, s.profiles.len() as int)
        &&& r.profiles@.len() == s.profiles.len()
        &&& forall|k: int| 0 <= k < s.profiles.len() ==> #[trigger] r.profiles@[k]@ == s.profiles[order[k] as int].1
    };
    assert(s.profiles.len() <= usize::MAX) by {
        assert(r.profiles@.len() == r.profiles.len());
    }
    assert forall|k: int| 0 <= k < input.len() implies #[trigger] input[k] == s.profiles[order[k] as int].1 by {
        assert(r.profiles@[k]@ == s.profiles[order[k] as int].1);
    }
    assert forall|k: int| 0 <= k < input.len() implies has_key(table, (#[trigger] input[k]).name)
        && value_of(table, input[k].name) == s.profiles[order[k] as int].0 by {
        assert(pm[order[k] as int] == (s.profiles[order[k] as int].0, s.profiles[order[k] as int].1.name));
    }
    assert forall|k: int, l: int| 0 <= k < input.len() && 0 <= l < input.len() && k != l implies value_of(table, (#[trigger] input[k]).name) != value_of(table, (#[trigger] input[l]).name) by {
        assert(order[k] != order[l]);
    }
    lemma_load_known(table, max_profil_id(pm), input);
    let ps = load_profiles(table, max_profil_id(pm), input).2;
    assert(loaded(r, m).profiles == ps);
    assert forall|id: ProfilID| #[trigger] has_key(ps, id) == s.has_profile(id) && (s.has_profile(id) ==> value_of(ps, id) == s.profile(id)) by {
        if s.has_profile(id) {
            let j = index_of(s.profiles, id);
            lemma_index_of(s.profiles, j);
            assert(order.contains(j as usize));
            let k = choose|k: int| 0 <= k < order.len() && order[k] == j as usize;
            assert(order[k] as int == j);
            assert(has_key(table, input[k].name) && value_of(table, input[k].name) == s.profiles[order[k] as int].0);
            assert(value_of(table, input[k].name) == id);
            assert(value_of(ps, id) == input[k]);
        }
        if has_key(ps, id) {
            let k = choose|k: int| 0 <= k < input.len() && value_of(table, (#[trigger] input[k]).name) == id;
            assert(s.profiles[order[k] as int].0 == id);
        }
    }
    assert forall|id: ProfilID| s.has_profile(id) implies #[trigger] value_of(ps, id) == s.profile(id) by {
        assert(has_key(ps, id) == s.has_profile(id));
    }
}

proof fn lemma_max_class_id(cm: Seq<(ClassID, Seq<char>)>)
    ensures
        forall|i: int| 0 <= i < cm.len() ==> (#[trigger] cm[i]).0.0 <= max_class_id(cm),
    decreases cm.len(),
{
    if cm.len() > 0 {
        lemma_max_class_id(cm.drop_last());
        assert forall|i: int| 0 <= i < cm.len() implies (#[trigger] cm[i]).0.0 <= max_class_id(cm) by {
            if i < cm.len() - 1 {
                assert(cm[i] == cm.drop_last()[i]);
            }
        }
    }
}

/// Loading classes whose names the class table all knows, under distinct ids.
proof fn lemma_load_classes_known(
    ctable: Seq<(Seq<char>, ClassID)>,
    c: u32,
    ptable: Seq<(Seq<char>, ProfilID)>,
    input: Seq<(Seq<char>, Seq<Seq<char>>)>,
)
    requires
        keys_unique(ctable),
        forall|k: int| 0 <= k < input.len() ==> has_key(ctable, (#[trigger] input[k]).0),
        forall|k: int, l: int| 0 <= k < input.len() && 0 <= l < input.len() && k != l ==> value_of(ctable, (#[trigger] input[k]).0) != value_of(ctable, (#[trigger] input[l]).0),
    ensures
        keys_unique(load_classes(ctable, c, ptable, input).1),
        forall|k: int| 0 <= k < input.len() ==> has_key(load_classes(ctable, c, ptable, input).1, value_of(ctable, (#[trigger] input[k]).0))
            && value_of(load_classes(ctable, c, ptable, input).1, value_of(ctable, input[k].0)) == (ClassView { name: input[k].0, members: resolve_members(ptable, input[k].1) }),
        forall|id: ClassID| #[trigger] has_key(load_classes(ctable, c, ptable, input).1, id) ==> exists|k: int| 0 <= k < input.len() && value_of(ctable, (#[trigger] input[k]).0) == id,
    decreases input.len(),
{
    if input.len() > 0 {
        let q = input.drop_last();
        assert forall|k: int| 0 <= k < q.len() implies has_key(ctable, (#[trigger] q[k]).0) by {
            assert(q[k] == input[k]);
        }
        assert forall|k: int, l: int| 0 <= k < q.len() && 0 <= l < q.len() && k != l implies value_of(ctable, (#[trigger] q[k]).0) != value_of(ctable, (#[trigger] q[l]).0) by {
            assert(q[k] == input[k] && q[l] == input[l]);
        }
        lemma_load_classes_known(ctable, c, ptable, q);
        let prev = load_classes(ctable, c, ptable, q);
        let last = input.last();
        assert(input[input.len() - 1] == last);
        let id = value_of(ctable, last.0);
        let class = ClassView { name: last.0, members: resolve_members(ptable, last.1) };
        lemma_upsert(prev.1, id, class);
        assert forall|k: int| 0 <= k < input.len() implies has_key(load_classes(ctable, c, ptable, input).1, value_of(ctable, (#[trigger] input[k]).0))
            && value_of(load_classes(ctable, c, ptable, input).1, value_of(ctable, input[k].0)) == (ClassView { name: input[k].0, members: resolve_members(ptable, input[k].1) }) by {
            if k < input.len() - 1 {
                assert(q[k] == input[k]);
            }
        }
        assert forall|x: ClassID| #[trigger] has_key(load_classes(ctable, c, ptable, input).1, x) implies exists|k: int| 0 <= k < input.len() && value_of(ctable, (#[trigger] input[k]).0) == x by {
            if x != id {
                assert(has_key(prev.1, x));
                let k = choose|k: int| 0 <= k < q.len() && value_of(ctable, (#[trigger] q[k]).0) == x;
                assert(q[k] == input[k]);
            } else {
                assert(value_of(ctable, input[input.len() - 1].0) == x);
            }
        }
    }
}

/// Resolving the names of distinct profiles gives the profiles back.
proof fn lemma_resolve_names(s: ServerView, table: Seq<(Seq<char>, ProfilID)>, ids: Seq<ProfilID>)
    requires
        ids.no_duplicates(),
        forall|i: int| 0 <= i < ids.len() ==> s.has_profile(#[trigger] ids[i]),
        forall|id: ProfilID| #[trigger] s.has_profile(id) ==> has_key(table, s.profile(id).name) && value_of(table, s.profile(id).name) == id,
    ensures
        resolve_members(table, ids.map_values(|id: ProfilID| s.profile(id).name)) == ids,
    decreases ids.len(),
{
    if ids.len() > 0 {
        let q = ids.drop_last();
        assert(q.no_duplicates());
        assert forall|i: int| 0 <= i < q.len() implies s.has_profile(#[trigger] q[i]) by {
            assert(q[i] == ids[i]);
        }
        lemma_resolve_names(s, table, q);
        let names = ids.map_values(|id: ProfilID| s.profile(id).name);
        assert(names.drop_last() =~= q.map_values(|id: ProfilID| s.profile(id).name));
        let last = ids.last();
        assert(ids[ids.len() - 1] == last);
        assert(s.has_profile(last));
        assert(names.last() == s.profile(last).name);
        assert(!q.contains(last)) by {
            if q.contains(last) {
                let i = choose|i: int| 0 <= i < q.len() && q[i] == last;
                assert(ids[i] == ids[ids.len() - 1]);
            }
        }
        assert(q.push(last) =~= ids);
    }
}

/// The classes described by a registry's stored form are the registry's
/// own, under the same ids and names, holding the members that have a
/// profile, when no two profiles and no two classes share a name.
pub proof fn lemma_round_trip_classes(s: ServerView, r: PeopleRepartition, m: IdMap)
    requires
        s.wf(),
        s.is_repartition_of(r),
        s.is_id_map_of(m),
        forall|i: int, j: int| 0 <= i < s.profiles.len() && 0 <= j < s.profiles.len() && s.profiles[i].1.name == s.profiles[j].1.name ==> i == j,
        forall|i: int, j: int| 0 <= i < s.classes.len() && 0 <= j < s.classes.len() && s.classes[i].1.name == s.classes[j].1.name ==> i == j,
    ensures
        forall|id: ClassID| #[trigger] has_key(loaded(r, m).classes, id) == has_key(s.classes, id),
        forall|id: ClassID| has_key(s.classes, id) ==> #[trigger] value_of(loaded(r, m).classes, id) == (ClassView {
            name: value_of(s.classes, id).name,
            members: value_of(s.classes, id).members.filter(s.is_profile()),
        }),
{
    // the profile table
    let pm = stored_profil_mapping(m);
    assert(pm =~= s.profiles.map_values(|e: (ProfilID, ProfilView)| (e.0, e.1.name))) by {
        assert forall|i: int| 0 <= i < pm.len() implies pm[i] == s.profiles.map_values(|e: (ProfilID, ProfilView)| (e.0, e.1.name))[i] by {
            assert(m.profil_mapping@.map_values(|e: (ProfilID, String)| crate::data_server::pair_view(e))[i] == s.profiles.map_values(|e: (ProfilID, ProfilView)| (e.0, e.1.name))[i]);
        }
    }
    assert forall|i: int| 0 <= i < pm.len() implies #[trigger] pm[i] == (s.profiles[i].0, s.profiles[i].1.name) by {
        assert(m.profil_mapping@.map_values(|e: (ProfilID, String)| crate::data_server::pair_view(e))[i] == s.profiles.map_values(|e: (ProfilID, ProfilView)| (e.0, e.1.name))[i]);
    }
    assert(names_distinct(pm));
    lemma_name_table(pm);
    let table = name_table(pm);
    assert forall|id: ProfilID| #[trigger] s.has_profile(id) implies has_key(table, s.profile(id).name) && value_of(table, s.profile(id).name) == id by {
        let j = index_of(s.profiles, id);
        lemma_index_of(s.profiles, j);
        assert(pm[j] == (s.profiles[j].0, s.profiles[j].1.name));
    }
    let input = stored_profiles(r);
    let porder = choose|order: Seq<usize>| {
        &&& is_permutation(order, s.profiles.len() as int)
        &&& r.profiles@.len() == s.profiles.len()
        &&& forall|k: int| 0 <= k < s.profiles.len() ==> #[trigger] r.profiles@[k]@ == s.profiles[order[k] as int].1
    };
    assert forall|k: int| 0 <= k < input.len() implies has_key(table, (#[trigger] input[k]).name)
        && value_of(table, input[k].name) == s.profiles[porder[k] as int].0 by {
        assert(r.profiles@[k]@ == s.profiles[porder[k] as int].1);
        assert(pm[porder[k] as int] == (s.profiles[porder[k] as int].0, s.profiles[porder[k] as int].1.name));
    }
    assert forall|k: int, l: int| 0 <= k < input.len() && 0 <= l < input.len() && k != l implies value_of(table, (#[trigger] input[k]).name) != value_of(table, (#[trigger] input[l]).name) by {
        assert(porder[k] != porder[l]);
    }
    lemma_load_known(table, max_profil_id(pm), input);
    let ptable = load_profiles(table, max_profil_id(pm), input).0;
    assert(ptable == table);
    // the class table
    let cm = stored_class_mapping(m);
    assert(cm =~= s.classes.map_values(|e: (ClassID, ClassView)| (e.0, e.1.name))) by {
        assert forall|i: int| 0 <= i < cm.len() implies cm[i] == s.classes.map_values(|e: (ClassID, ClassView)| (e.0, e.1.name))[i] by {
            assert(m.class_mapping@.map_values(|e: (ClassID, String)| crate::data_server::class_pair_view(e))[i] == s.classes.map_values(|e: (ClassID, ClassView)| (e.0, e.1.name))[i]);
        }
    }
    assert forall|i: int| 0 <= i < cm.len() implies #[trigger] cm[i] == (s.classes[i].0, s.classes[i].1.name) by {
        assert(m.class_mapping@.map_values(|e: (ClassID, String)| crate::data_server::class_pair_view(e))[i] == s.classes.map_values(|e: (ClassID, ClassView)| (e.0, e.1.name))[i]);
    }
    assert(names_distinct(cm));
    lemma_name_table(cm);
    let ctable = name_table(cm);
    let cinput = stored_classes(r);
    let corder = choose|order: Seq<usize>| {
        &&& is_permutation(order, s.classes.len() as int)
        &&& r.classes@.len() == s.classes.len()
        &&& forall|k: int| 0 <= k < s.classes.len() ==> {
            &&& (#[trigger] r.classes@[k]).name@ == s.classes[order[k] as int].1.name
            &&& strings_view(r.classes@[k].people) == s.present_members(s.classes[order[k] as int].1.members).map_values(
                |e: (ProfilID, Seq<char>)| e.1,
            )
        }
    };
    assert(s.classes.len() <= usize::MAX) by {
        assert(r.classes@.len() == r.classes.len());
    }
    assert forall|k: int| 0 <= k < cinput.len() implies has_key(ctable, (#[trigger] cinput[k]).0)
        && value_of(ctable, cinput[k].0) == s.classes[corder[k] as int].0
        && cinput[k].0 == s.classes[corder[k] as int].1.name
        && cinput[k].1 == s.present_members(s.classes[corder[k] as int].1.members).map_values(|e: (ProfilID, Seq<char>)| e.1) by {
        assert(r.classes@[k].name@ == s.classes[corder[k] as int].1.name);
        assert(cm[corder[k] as int] == (s.classes[corder[k] as int].0, s.classes[corder[k] as int].1.name));
    }
    assert forall|k: int, l: int| 0 <= k < cinput.len() && 0 <= l < cinput.len() && k != l implies value_of(ctable, (#[trigger] cinput[k]).0) != value_of(ctable, (#[trigger] cinput[l]).0) by {
        assert(corder[k] != corder[l]);
    }
    lemma_load_classes_known(ctable, max_class_id(cm), ptable, cinput);
    let cs = load_classes(ctable, max_class_id(cm), ptable, cinput).1;
    assert(loaded(r, m).classes == cs);
    assert forall|id: ClassID| #[trigger] has_key(cs, id) == has_key(s.classes, id) by {
        if has_key(s.classes, id) {
            let j = index_of(s.classes, id);
            lemma_index_of(s.classes, j);
            assert(corder.contains(j as usize));
            let k = choose|k: int| 0 <= k < corder.len() && corder[k] == j as usize;
            assert(corder[k] as int == j);
            assert(value_of(ctable, cinput[k].0) == id);
        }
        if has_key(cs, id) {
            let k = choose|k: int| 0 <= k < cinput.len() && value_of(ctable, (#[trigger] cinput[k]).0) == id;
            assert(s.classes[corder[k] as int].0 == id);
        }
    }
    assert forall|id: ClassID| has_key(s.classes, id) implies #[trigger] value_of(cs, id) == (ClassView {
        name: value_of(s.classes, id).name,
        members: value_of(s.classes, id).members.filter(s.is_profile()),
    }) by {
        let j = index_of(s.classes, id);
        lemma_index_of(s.classes, j);
        assert(corder.contains(j as usize));
        let k = choose|k: int| 0 <= k < corder.len() && corder[k] == j as usize;
        assert(corder[k] as int == j);
        assert(value_of(ctable, cinput[k].0) == id);
        let members = s.classes[j].1.members;
        let ids = members.filter(s.is_profile());
        crate::data_server::lemma_filter_no_duplicates(members, s.is_profile());
        assert forall|i: int| 0 <= i < ids.len() implies s.has_profile(#[trigger] ids[i]) by {
            assert(ids.contains(ids[i]));
        }
        lemma_resolve_names(s, table, ids);
        assert(cinput[k].1 =~= ids.map_values(|x: ProfilID| s.profile(x).name));
    }
}

proof fn lemma_index_names(ps: Seq<(ProfilID, ProfilView)>)
    requires
        forall|i: int, j: int| 0 <= i < ps.len() && 0 <= j < ps.len() && ps[i].1.name == ps[j].1.name ==> i == j,
    ensures
        forall|i: int| 0 <= i < ps.len() ==> has_key(index_names(ps), (#[trigger] ps[i]).1.name)
            && value_of(index_names(ps), ps[i].1.name) == ps[i].0,
        forall|n: Seq<char>| #[trigger] has_key(index_names(ps), n) ==> exists|i: int| 0 <= i < ps.len() && (#[trigger] ps[i]).1.name == n,
        keys_unique(index_names(ps)),
    decreases ps.len(),
{
    if ps.len() > 0 {
        let q = ps.drop_last();
        assert forall|i: int, j: int| 0 <= i < q.len() && 0 <= j < q.len() && q[i].1.name == q[j].1.name implies i == j by {
            assert(q[i] == ps[i] && q[j] == ps[j]);
        }
        lemma_index_names(q);
        lemma_upsert(index_names(q), ps.last().1.name, ps.last().0);
        assert forall|i: int| 0 <= i < ps.len() implies has_key(index_names(ps), (#[trigger] ps[i]).1.name)
            && value_of(index_names(ps), ps[i].1.name) == ps[i].0 by {
            if i < ps.len() - 1 {
                assert(ps[i] == q[i]);
            }
        }
        assert forall|n: Seq<char>| #[trigger] has_key(index_names(ps), n) implies exists|i: int| 0 <= i < ps.len() && (#[trigger] ps[i]).1.name == n by {
            if n != ps.last().1.name {
                assert(has_key(index_names(q), n));
                let i = choose|i: int| 0 <= i < q.len() && (#[trigger] q[i]).1.name == n;
                assert(ps[i] == q[i]);
            } else {
                assert(ps[ps.len() - 1].1.name == n);
            }
        }
    }
}

/// After saving and loading, each profile's name leads to its id again,
/// and every name of the loaded index is the name of one of the profiles;
/// so every name that the index knew leads to the same id, when no two
/// profiles share a name.
pub proof fn lemma_round_trip_names(s: ServerView, r: PeopleRepartition, m: IdMap)
    requires
        s.wf(),
        s.is_repartition_of(r),
        s.is_id_map_of(m),
        forall|i: int, j: int| 0 <= i < s.profiles.len() && 0 <= j < s.profiles.len() && s.profiles[i].1.name == s.profiles[j].1.name ==> i == j,
    ensures
        forall|id: ProfilID| #[trigger] s.has_profile(id) ==> loaded(r, m).id_of_name(s.profile(id).name) == Some(id),
        forall|n: Seq<char>| #[trigger] has_key(loaded(r, m).names, n) ==> exists|id: ProfilID| s.has_profile(id) && s.profile(id).name == n,
        forall|n: Seq<char>| #[trigger] s.id_of_name(n) is Some ==> loaded(r, m).id_of_name(n) == s.id_of_name(n),
{
    lemma_round_trip_profiles(s, r, m);
    let t = loaded(r, m);
    let ps = t.profiles;
    assert forall|i: int| 0 <= i < ps.len() implies #[trigger] ps[i].1 == s.profile(ps[i].0) && s.has_profile(ps[i].0) by {
        lemma_index_of(ps, i);
        assert(has_key(ps, ps[i].0));
    }
    assert forall|i: int, j: int| 0 <= i < ps.len() && 0 <= j < ps.len() && ps[i].1.name == ps[j].1.name implies i == j by {
        let a = index_of(s.profiles, ps[i].0);
        let b = index_of(s.profiles, ps[j].0);
        assert(ps[i].1 == s.profile(ps[i].0));
        assert(ps[j].1 == s.profile(ps[j].0));
        lemma_index_of(s.profiles, a);
        lemma_index_of(s.profiles, b);
        assert(s.profiles[a].1.name == s.profiles[b].1.name);
        assert(ps[i].0 == ps[j].0);
    }
    lemma_index_names(ps);
    assert(t.names == index_names(ps));
    assert forall|id: ProfilID| #[trigger] s.has_profile(id) implies t.id_of_name(s.profile(id).name) == Some(id) by {
        assert(has_key(ps, id));
        let i = index_of(ps, id);
        lemma_index_of(ps, i);
        assert(ps[i].1 == s.profile(ps[i].0));
    }
    assert forall|n: Seq<char>| #[trigger] has_key(t.names, n) implies exists|id: ProfilID| s.has_profile(id) && s.profile(id).name == n by {
        let i = choose|i: int| 0 <= i < ps.len() && (#[trigger] ps[i]).1.name == n;
        assert(ps[i].1 == s.profile(ps[i].0) && s.has_profile(ps[i].0));
    }
    assert forall|n: Seq<char>| #[trigger] s.id_of_name(n) is Some implies t.id_of_name(n) == s.id_of_name(n) by {
        let id = value_of(s.names, n);
        let k = index_of(s.names, n);
        lemma_index_of(s.names, k);
        assert(has_key(s.profiles, s.names[k].1));
        assert(s.has_profile(id));
    }
}

/// The (id, name) pairs of the profiles.
pub open spec fn profile_pairs(s: ServerView) -> Set<(ProfilID, Seq<char>)> {
    Set::new(|e: (ProfilID, Seq<char>)| s.has_profile(e.0) && s.profile(e.0).name == e.1)
}

/// The (id, name) pairs of the classes.
pub open spec fn class_pairs(s: ServerView) -> Set<(ClassID, Seq<char>)> {
    Set::new(|e: (ClassID, Seq<char>)| has_key(s.classes, e.0) && value_of(s.classes, e.0).name == e.1)
}

/// Saving a registry and loading what was saved gives back its profiles
/// (names, passwords, permissions) and its classes under the same ids,
/// each class with its members that have a profile; the same names lead to
/// the same ids, the (id, name) pairs of profiles and of classes are the
/// same, and each class lists the same members under the same names; all
/// this when no two profiles and no two classes share a name.
pub proof fn lemma_round_trip(s: ServerView, r: PeopleRepartition, m: IdMap)
    requires
        s.wf(),
        s.is_repartition_of(r),
        s.is_id_map_of(m),
        forall|i: int, j: int| 0 <= i < s.profiles.len() && 0 <= j < s.profiles.len() && s.profiles[i].1.name == s.profiles[j].1.name ==> i == j,
        forall|i: int, j: int| 0 <= i < s.classes.len() && 0 <= j < s.classes.len() && s.classes[i].1.name == s.classes[j].1.name ==> i == j,
    ensures
        forall|id: ProfilID| #[trigger] has_key(loaded(r, m).profiles, id) == s.has_profile(id),
        forall|id: ProfilID| s.has_profile(id) ==> #[trigger] value_of(loaded(r, m).profiles, id) == s.profile(id),
        forall|id: ClassID| #[trigger] has_key(loaded(r, m).classes, id) == has_key(s.classes, id),
        forall|id: ClassID| has_key(s.classes, id) ==> #[trigger] value_of(loaded(r, m).classes, id) == (ClassView {
            name: value_of(s.classes, id).name,
            members: value_of(s.classes, id).members.filter(s.is_profile()),
        }),
        forall|id: ProfilID| #[trigger] s.has_profile(id) ==> loaded(r, m).id_of_name(s.profile(id).name) == Some(id),
        forall|n: Seq<char>| #[trigger] s.id_of_name(n) is Some ==> loaded(r, m).id_of_name(n) == s.id_of_name(n),
        forall|n: Seq<char>| #[trigger] has_key(loaded(r, m).names, n) ==> exists|id: ProfilID| s.has_profile(id) && s.profile(id).name == n,
        profile_pairs(loaded(r, m)) == profile_pairs(s),
        class_pairs(loaded(r, m)) == class_pairs(s),
        forall|id: ClassID| has_key(s.classes, id) ==> #[trigger] loaded(r, m).present_members(value_of(loaded(r, m).classes, id).members)
            == s.present_members(value_of(s.classes, id).members),
{
    lemma_round_trip_profiles(s, r, m);
    lemma_round_trip_classes(s, r, m);
    lemma_round_trip_names(s, r, m);
    let t = loaded(r, m);
    assert(profile_pairs(t) =~= profile_pairs(s));
    assert(class_pairs(t) =~= class_pairs(s));
    assert(t.is_profile() =~= s.is_profile());
    assert forall|id: ClassID| has_key(s.classes, id) implies #[trigger] t.present_members(value_of(t.classes, id).members)
        == s.present_members(value_of(s.classes, id).members) by {
        let members = value_of(s.classes, id).members;
        let kept = members.filter(s.is_profile());
        crate::data_server::laws::lemma_filter_twice(members, s.is_profile());
        assert(value_of(t.classes, id).members.filter(t.is_profile()) == kept);
        assert forall|i: int| 0 <= i < kept.len() implies s.has_profile(#[trigger] kept[i]) by {
            members.lemma_filter_pred(s.is_profile(), i);
        }
        assert(kept.map_values(|x: ProfilID| (x, t.profile(x).name)) =~= kept.map_values(|x: ProfilID| (x, s.profile(x).name)));
    }
}

} // verus!
