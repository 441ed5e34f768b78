use vstd::prelude::*;
use vstd::multiset::Multiset;
use crate::domain::ExtractedRecord;
use crate::domain::RecordView;
use crate::domain::records_view;
use crate::text::lex_lt;
use crate::text::lemma_lex_asym;
use crate::text::lemma_lex_trans;
use crate::text::str_compare;
use crate::utils::partition_key_spec;
use crate::utils::partition_key_of;

verus! {

broadcast use {vstd::seq_lib::group_to_multiset_ensures, vstd::multiset::group_multiset_axioms};

// ---------------------------------------------------------------------------
// Keys
// ---------------------------------------------------------------------------
/// The grouping key: a channel name and a partition key.
pub ghost struct GroupKey {
    pub channel: Seq<char>,
    pub partition: Seq<char>,
}

/// The key under which a record is grouped.
pub open spec fn key_of(r: RecordView) -> GroupKey {
    GroupKey { channel: r.channel_name, partition: partition_key_spec(r.timestamp) }
}

/// Strict order on keys: by channel name, then by partition key.
pub open spec fn key_lt(a: GroupKey, b: GroupKey) -> bool {
    lex_lt(a.channel, b.channel) || (a.channel == b.channel && lex_lt(a.partition, b.partition))
}

/// No key precedes itself.
pub proof fn lemma_key_irrefl(a: GroupKey)
    ensures
        !key_lt(a, a),
{
    lemma_lex_asym(a.channel, a.channel);
    lemma_lex_asym(a.partition, a.partition);
}

/// The key order is asymmetric.
pub proof fn lemma_key_asym(a: GroupKey, b: GroupKey)
    ensures
        !(key_lt(a, b) && key_lt(b, a)),
{
    lemma_lex_asym(a.channel, b.channel);
    lemma_lex_asym(a.partition, b.partition);
}

/// The key order is transitive.
pub proof fn lemma_key_trans(a: GroupKey, b: GroupKey, c: GroupKey)
    requires
        key_lt(a, b),
        key_lt(b, c),
    ensures
        key_lt(a, c),
{
    if lex_lt(a.channel, b.channel) && lex_lt(b.channel, c.channel) {
        lemma_lex_trans(a.channel, b.channel, c.channel);
    } else if a.channel == b.channel && b.channel == c.channel {
        lemma_lex_trans(a.partition, b.partition, c.partition);
    }
}

// ---------------------------------------------------------------------------
// Spec-level grouping
// ---------------------------------------------------------------------------
/// The keys of the records, in order.
pub open spec fn keys_of(rs: Seq<RecordView>) -> Seq<GroupKey> {
    rs.map_values(|r: RecordView| key_of(r))
}

/// The set of distinct keys occurring in the records.
pub open spec fn key_set(rs: Seq<RecordView>) -> Set<GroupKey> {
    keys_of(rs).to_set()
}

/// The records of `rs` that carry the key `k`, in their order in `rs`.
pub open spec fn filter_by_key(rs: Seq<RecordView>, k: GroupKey) -> Seq<RecordView>
    decreases rs.len(),
{
    if rs.len() == 0 {
        Seq::empty()
    } else if key_of(rs.last()) == k {
        filter_by_key(rs.drop_last(), k).push(rs.last())
    } else {
        filter_by_key(rs.drop_last(), k)
    }
}

/// Appending a record extends exactly the filter of its own key.
pub proof fn lemma_filter_push(rs: Seq<RecordView>, x: RecordView, k: GroupKey)
    ensures
        key_of(x) == k ==> filter_by_key(rs.push(x), k) == filter_by_key(rs, k).push(x),
        key_of(x) != k ==> filter_by_key(rs.push(x), k) == filter_by_key(rs, k),
{
    let e = rs.push(x);
    assert(e.drop_last() =~= rs);
    assert(e.last() == x);
}

/// A key that occurs nowhere has the empty filter.
pub proof fn lemma_filter_absent(rs: Seq<RecordView>, k: GroupKey)
    requires
        !key_set(rs).contains(k),
    ensures
        filter_by_key(rs, k) == Seq::<RecordView>::empty(),
    decreases rs.len(),
{
    if rs.len() > 0 {
        let prev = rs.drop_last();
        assert(!key_set(prev).contains(k)) by {
            if key_set(prev).contains(k) {
                let i = choose|i: int| 0 <= i < prev.len() && keys_of(prev)[i] == k;
                assert(keys_of(rs)[i] == k);
                assert(keys_of(rs).contains(k));
            }
        }
        assert(key_of(rs.last()) != k) by {
            if key_of(rs.last()) == k {
                assert(keys_of(rs)[rs.len() - 1] == k);
                assert(keys_of(rs).contains(k));
            }
        }
        lemma_filter_absent(prev, k);
    }
}

// ---------------------------------------------------------------------------
// Groups
// ---------------------------------------------------------------------------
/// One output group: a channel name, a partition key, and the ordered records
/// that share them.
pub struct Group {
    pub channel: String,
    pub partition: String,
    pub records: Vec<ExtractedRecord>,
}

/// Mathematical image of a group.
pub ghost struct GroupView {
    pub channel: Seq<char>,
    pub partition: Seq<char>,
    pub records: Seq<RecordView>,
}

impl GroupView {
    /// The key of this group.
    pub open spec fn key(self) -> GroupKey {
        GroupKey { channel: self.channel, partition: self.partition }
    }
}

impl View for Group {
    type V = GroupView;

    open spec fn view(&self) -> GroupView {
        GroupView {
            channel: self.channel@,
            partition: self.partition@,
            records: records_view(self.records@),
        }
    }
}

/// The images of a sequence of groups, in order.
pub open spec fn groups_view(gs: Seq<Group>) -> Seq<GroupView> {
    gs.map_values(|g: Group| g@)
}

/// The multiset of all records held across the groups.
pub open spec fn groups_contents(gv: Seq<GroupView>) -> Multiset<RecordView>
    decreases gv.len(),
{
    if gv.len() == 0 {
        Multiset::empty()
    } else {
        groups_contents(gv.drop_last()).add(gv.last().records.to_multiset())
    }
}

/// The groups stand in strictly ascending key order.
pub open spec fn groups_sorted(gv: Seq<GroupView>) -> bool {
    forall|i: int, j: int|
        0 <= i < j < gv.len() ==> key_lt(#[trigger] gv[i].key(), #[trigger] gv[j].key())
}

/// The grouper's whole contract over the record images `rs`:
/// the groups are strictly sorted by key; each group holds exactly the
/// records of its key, in input order, and is non-empty; a key has a group
/// exactly when some record carries it; and nothing is lost or duplicated.
pub open spec fn groups_ok(rs: Seq<RecordView>, gv: Seq<GroupView>) -> bool {
    &&& groups_sorted(gv)
    &&& forall|i: int|
        0 <= i < gv.len() ==> (#[trigger] gv[i]).records == filter_by_key(rs, gv[i].key())
    &&& forall|i: int| 0 <= i < gv.len() ==> (#[trigger] gv[i]).records.len() > 0
    &&& forall|i: int| 0 <= i < gv.len() ==> key_set(rs).contains((#[trigger] gv[i]).key())
    &&& forall|k: GroupKey|
        #[trigger] key_set(rs).contains(k) ==> exists|i: int|
            0 <= i < gv.len() && (#[trigger] gv[i]).key() == k
    &&& groups_contents(gv) == rs.to_multiset()
}

/// For any grouping of a record set, the number of groups equals the number
/// of distinct (channel, partition key) pairs among the records.
pub proof fn lemma_group_count(rs: Seq<RecordView>, gv: Seq<GroupView>)
    requires
        groups_ok(rs, gv),
    ensures
        gv.len() == key_set(rs).len(),
{
    let ks = gv.map_values(|g: GroupView| g.key());
    assert forall|i: int, j: int|
        0 <= i < ks.len() && 0 <= j < ks.len() && i != j implies ks[i] != ks[j] by {
        if i < j {
            assert(key_lt(gv[i].key(), gv[j].key()));
            lemma_key_irrefl(gv[i].key());
        } else {
            assert(key_lt(gv[j].key(), gv[i].key()));
            lemma_key_irrefl(gv[i].key());
        }
    }
    assert(ks.no_duplicates());
    ks.unique_seq_to_set();
    assert forall|k: GroupKey| ks.to_set().contains(k) implies key_set(rs).contains(k) by {
        let i = choose|i: int| 0 <= i < ks.len() && ks[i] == k;
        assert(key_set(rs).contains(gv[i].key()));
    }
    assert forall|k: GroupKey| key_set(rs).contains(k) implies ks.to_set().contains(k) by {
        let i = choose|i: int| 0 <= i < gv.len() && (#[trigger] gv[i]).key() == k;
        assert(ks[i] == k);
        assert(ks.contains(k));
    }
    assert(ks.to_set() =~= key_set(rs));
}

// ---------------------------------------------------------------------------
// Contents lemmas
// ---------------------------------------------------------------------------
proof fn lemma_contents_insert(gv: Seq<GroupView>, i: int, g: GroupView)
    requires
        0 <= i <= gv.len(),
    ensures
        groups_contents(gv.insert(i, g)) == groups_contents(gv).add(g.records.to_multiset()),
    decreases gv.len(),
{
    let u = gv.insert(i, g);
    if i == gv.len() {
        assert(u.drop_last() =~= gv);
        assert(u.last() == g);
    } else {
        assert(u.drop_last() =~= gv.drop_last().insert(i, g));
        assert(u.last() == gv.last());
        lemma_contents_insert(gv.drop_last(), i, g);
        assert(groups_contents(u) =~= groups_contents(gv).add(g.records.to_multiset()));
    }
}

proof fn lemma_contents_update_push(gv: Seq<GroupView>, i: int, g2: GroupView, x: RecordView)
    requires
        0 <= i < gv.len(),
        g2.records == gv[i].records.push(x),
    ensures
        groups_contents(gv.update(i, g2)) == groups_contents(gv).insert(x),
    decreases gv.len(),
{
    let u = gv.update(i, g2);
    if i == gv.len() - 1 {
        assert(u.drop_last() =~= gv.drop_last());
        assert(u.last() == g2);
        assert(g2.records.to_multiset() =~= gv[i].records.to_multiset().insert(x));
        assert(groups_contents(u) =~= groups_contents(gv).insert(x));
    } else {
        assert(u.drop_last() =~= gv.drop_last().update(i, g2));
        assert(u.last() == gv.last());
        lemma_contents_update_push(gv.drop_last(), i, g2, x);
        assert(groups_contents(u) =~= groups_contents(gv).insert(x));
    }
}

// ---------------------------------------------------------------------------
// Step lemmas
// ---------------------------------------------------------------------------
/// Appending a record adds its key to the key set and no other.
proof fn lemma_key_set_push(rs: Seq<RecordView>, x: RecordView)
    ensures
        key_set(rs.push(x)) == key_set(rs).insert(key_of(x)),
{
    let e = rs.push(x);
    assert forall|k: GroupKey| key_set(e).contains(k) implies key_set(rs).insert(
        key_of(x),
    ).contains(k) by {
        let i = choose|i: int| 0 <= i < e.len() && keys_of(e)[i] == k;
        if i < rs.len() {
            assert(keys_of(rs)[i] == k);
            assert(keys_of(rs).contains(k));
        }
    }
    assert forall|k: GroupKey| key_set(rs).insert(key_of(x)).contains(k) implies key_set(
        e,
    ).contains(k) by {
        if k == key_of(x) {
            assert(keys_of(e)[rs.len() as int] == k);
            assert(keys_of(e).contains(k));
        } else {
            let i = choose|i: int| 0 <= i < rs.len() && keys_of(rs)[i] == k;
            assert(keys_of(e)[i] == k);
            assert(keys_of(e).contains(k));
        }
    }
    assert(key_set(e) =~= key_set(rs).insert(key_of(x)));
}

/// A record whose key some group already owns goes to exactly that group.
proof fn lemma_step_existing(rs: Seq<RecordView>, x: RecordView, gv: Seq<GroupView>, pos: int, g2: GroupView)
    requires
        groups_ok(rs, gv),
        0 <= pos < gv.len(),
        gv[pos].key() == key_of(x),
        g2.channel == gv[pos].channel,
        g2.partition == gv[pos].partition,
        g2.records == gv[pos].records.push(x),
    ensures
        groups_ok(rs.push(x), gv.update(pos, g2)),
{
    let k = key_of(x);
    let rs2 = rs.push(x);
    let gv2 = gv.update(pos, g2);
    assert(g2.key() == gv[pos].key());
    assert(forall|i: int| 0 <= i < gv2.len() ==> (#[trigger] gv2[i]).key() == gv[i].key());
    // distinct keys: any other group's key differs from k
    assert forall|i: int| 0 <= i < gv.len() && i != pos implies (#[trigger] gv[i]).key() != k by {
        if i < pos {
            assert(key_lt(gv[i].key(), gv[pos].key()));
        } else {
            assert(key_lt(gv[pos].key(), gv[i].key()));
        }
        lemma_key_irrefl(gv[pos].key());
    }
    // exactness
    assert forall|i: int| 0 <= i < gv2.len() implies (#[trigger] gv2[i]).records == filter_by_key(
        rs2,
        gv2[i].key(),
    ) by {
        lemma_filter_push(rs, x, gv[i].key());
    }
    // key sets
    lemma_key_set_push(rs, x);
    assert(key_set(rs2) =~= key_set(rs).insert(k));
    assert forall|kk: GroupKey| key_set(rs2).contains(kk) implies exists|i: int|
        0 <= i < gv2.len() && (#[trigger] gv2[i]).key() == kk by {
        if kk == k {
            assert(gv2[pos].key() == kk);
        } else {
            let i = choose|i: int| 0 <= i < gv.len() && (#[trigger] gv[i]).key() == kk;
            assert(gv2[i].key() == kk);
        }
    }
    // contents
    lemma_contents_update_push(gv, pos, g2, x);
}

/// A record with a fresh key founds a new group at the sorted position.
proof fn lemma_step_new(rs: Seq<RecordView>, x: RecordView, gv: Seq<GroupView>, pos: int, g: GroupView)
    requires
        groups_ok(rs, gv),
        0 <= pos <= gv.len(),
        forall|j: int| 0 <= j < pos ==> key_lt((#[trigger] gv[j]).key(), key_of(x)),
        pos < gv.len() ==> key_lt(key_of(x), gv[pos].key()),
        g.channel == x.channel_name,
        g.partition == partition_key_spec(x.timestamp),
        g.records == seq![x],
    ensures
        groups_ok(rs.push(x), gv.insert(pos, g)),
{
    let k = key_of(x);
    let rs2 = rs.push(x);
    let gv2 = gv.insert(pos, g);
    assert(g.key() == k);
    // every old key differs from k
    assert forall|j: int| 0 <= j < gv.len() implies (#[trigger] gv[j]).key() != k by {
        lemma_key_irrefl(k);
        if j < pos {
            assert(key_lt(gv[j].key(), k));
        } else if j == pos {
            assert(key_lt(k, gv[pos].key()));
        } else {
            assert(key_lt(gv[pos].key(), gv[j].key()));
            lemma_key_trans(k, gv[pos].key(), gv[j].key());
        }
    }
    // k is absent from rs
    assert(!key_set(rs).contains(k)) by {
        if key_set(rs).contains(k) {
            let i = choose|i: int| 0 <= i < gv.len() && (#[trigger] gv[i]).key() == k;
        }
    }
    lemma_filter_absent(rs, k);
    // index bookkeeping for the inserted sequence
    assert(forall|j: int| 0 <= j < pos ==> gv2[j] == gv[j]);
    assert(gv2[pos] == g);
    assert(forall|j: int| pos < j < gv2.len() ==> gv2[j] == gv[j - 1]);
    // sorted
    assert forall|i: int, j: int| 0 <= i < j < gv2.len() implies key_lt(
        (#[trigger] gv2[i]).key(),
        (#[trigger] gv2[j]).key(),
    ) by {
        if i == pos {
            if pos < gv.len() {
                if j == pos + 1 {
                    assert(gv2[j] == gv[pos]);
                } else {
                    lemma_key_trans(k, gv[pos].key(), gv[j - 1].key());
                }
            }
        } else if j == pos {
            assert(key_lt(gv2[i].key(), k));
        } else if i < pos && j > pos {
            if j - 1 == pos {
                assert(key_lt(gv[i].key(), k));
                assert(gv2[j] == gv[pos]);
                lemma_key_trans(gv[i].key(), k, gv[pos].key());
            } else {
                assert(key_lt(gv[i].key(), gv[j - 1].key()));
            }
        } else if i < pos && j < pos {
            assert(key_lt(gv[i].key(), gv[j].key()));
        } else {
            assert(key_lt(gv[i - 1].key(), gv[j - 1].key()));
        }
    }
    // exactness
    assert forall|i: int| 0 <= i < gv2.len() implies (#[trigger] gv2[i]).records == filter_by_key(
        rs2,
        gv2[i].key(),
    ) by {
        lemma_filter_push(rs, x, gv2[i].key());
        if i == pos {
            assert(filter_by_key(rs2, k) =~= seq![x]);
        }
    }
    // non-empty
    assert forall|i: int| 0 <= i < gv2.len() implies (#[trigger] gv2[i]).records.len() > 0 by {
        if i == pos {
            assert(gv2[pos].records == seq![x]);
        } else if i < pos {
            assert(gv2[i] == gv[i]);
        } else {
            assert(gv2[i] == gv[i - 1]);
        }
    }
    // key sets
    lemma_key_set_push(rs, x);
    assert(key_set(rs2) =~= key_set(rs).insert(k));
    assert forall|i: int| 0 <= i < gv2.len() implies key_set(rs2).contains(
        (#[trigger] gv2[i]).key(),
    ) by {
        if i != pos {
            let j = if i < pos { i } else { i - 1 };
            assert(gv2[i] == gv[j]);
            assert(key_set(rs).contains(gv[j].key()));
        }
    }
    assert forall|kk: GroupKey| key_set(rs2).contains(kk) implies exists|i: int|
        0 <= i < gv2.len() && (#[trigger] gv2[i]).key() == kk by {
        if kk == k {
            assert(gv2[pos].key() == kk);
        } else {
            let i = choose|i: int| 0 <= i < gv.len() && (#[trigger] gv[i]).key() == kk;
            let i2 = if i < pos { i } else { i + 1 };
            assert(gv2[i2].key() == kk);
        }
    }
    // contents
    lemma_contents_insert(gv, pos, g);
    assert(g.records.to_multiset() =~= Multiset::empty().insert(x)) by {
        assert(seq![x] =~= Seq::<RecordView>::empty().push(x));
        assert(Seq::<RecordView>::empty().push(x).to_multiset() =~= Seq::<
            RecordView,
        >::empty().to_multiset().insert(x));
    }
    assert(groups_contents(gv2) =~= rs2.to_multiset());
}

// ---------------------------------------------------------------------------
// Executable grouping
// ---------------------------------------------------------------------------
/// Three-way comparison of keys given as strings.
fn key_compare(c1: &str, p1: &str, c2: &str, p2: &str) -> (o: i8)
    ensures
        -1 <= o <= 1,
        (o == -1) <==> key_lt(
            (GroupKey { channel: c1@, partition: p1@ }),
            (GroupKey { channel: c2@, partition: p2@ }),
        ),
        (o == 1) <==> key_lt(
            (GroupKey { channel: c2@, partition: p2@ }),
            (GroupKey { channel: c1@, partition: p1@ }),
        ),
        (o == 0) <==> (c1@ == c2@ && p1@ == p2@),
{
    proof {
        lemma_lex_asym(c1@, c2@);
        lemma_lex_asym(c1@, c1@);
        lemma_lex_asym(p1@, p2@);
        lemma_lex_asym(p1@, p1@);
    }
    let c = str_compare(c1, c2);
    if c != 0 {
        return c;
    }
    str_compare(p1, p2)
}

/// Finds where a key stands among the (sorted) groups: either the index of
/// the group that owns it, or the index where a new group for it belongs.
fn find_position(groups: &Vec<Group>, channel: &str, partition: &str) -> (res: (usize, bool))
    requires
        groups_sorted(groups_view(groups@)),
    ensures
        ({
            let gv = groups_view(groups@);
            let k = (GroupKey { channel: channel@, partition: partition@ });
            &&& res.0 <= gv.len()
            &&& forall|j: int| 0 <= j < res.0 ==> key_lt((#[trigger] gv[j]).key(), k)
            &&& res.1 <==> (res.0 < gv.len() && gv[res.0 as int].key() == k)
            &&& (!res.1 && res.0 < gv.len()) ==> key_lt(k, gv[res.0 as int].key())
        }),
{
    let ghost gv = groups_view(groups@);
    let ghost k = (GroupKey { channel: channel@, partition: partition@ });
    let n = groups.len();
    let mut pos: usize = 0;
    while pos < n
        invariant
            pos <= n,
            n == gv.len(),
            gv == groups_view(groups@),
            k == (GroupKey { channel: channel@, partition: partition@ }),
            forall|j: int| 0 <= j < pos ==> key_lt((#[trigger] gv[j]).key(), k),
        decreases n - pos,
    {
        let g = &groups[pos];
        let o = key_compare(g.channel.as_str(), g.partition.as_str(), channel, partition);
        proof {
            assert(gv[pos as int] == groups@[pos as int]@);
            assert(gv[pos as int].key().channel == g.channel@);
            assert(gv[pos as int].key().partition == g.partition@);
        }
        if o == 0 {
            proof {
                assert(gv[pos as int].key() == k);
            }
            return (pos, true);
        }
        if o == 1 {
            proof {
                lemma_key_irrefl(k);
            }
            return (pos, false);
        }
        pos = pos + 1;
    }
    (pos, false)
}

/// Partitions the records by (channel, partition key). The result is the
/// stable partition of the input: groups stand in ascending key order, and
/// each keeps its records in input order. No record is lost or duplicated.
pub fn group_records(records: &Vec<ExtractedRecord>) -> (groups: Vec<Group>)
    ensures
        groups_ok(records_view(records@), groups_view(groups@)),
{
    let ghost rv = records_view(records@);
    let mut groups: Vec<Group> = Vec::new();
    let mut idx: usize = 0;
    proof {
        assert(rv.take(0) =~= Seq::<RecordView>::empty());
        assert(groups_view(groups@) =~= Seq::<GroupView>::empty());
        assert(Seq::<RecordView>::empty().to_multiset() =~= Multiset::<RecordView>::empty()) by {
            Seq::<RecordView>::empty().to_multiset_ensures();
            vstd::multiset::lemma_multiset_empty_len(Seq::<RecordView>::empty().to_multiset());
        }
        assert(key_set(rv.take(0)) =~= Set::<GroupKey>::empty());
    }
    while idx < records.len()
        invariant
            idx <= records@.len(),
            rv == records_view(records@),
            groups_ok(rv.take(idx as int), groups_view(groups@)),
        decreases records@.len() - idx,
    {
        let r = &records[idx];
        let ghost x = rv[idx as int];
        proof {
            assert(x == records@[idx as int]@);
        }
        let partition = partition_key_of(r.timestamp.as_str());
        let (pos, matched) = find_position(&groups, r.channel_name.as_str(), partition.as_str());
        proof {
            assert(key_of(x) == (GroupKey { channel: r.channel_name@, partition: partition@ }));
            assert(rv.take(idx + 1) =~= rv.take(idx as int).push(x));
        }
        if matched {
            let ghost orig = groups@;
            let mut g = groups.remove(pos);
            g.records.push(r.clone());
            groups.insert(pos, g);
            proof {
                let g2 = groups@[pos as int]@;
                assert(groups@ =~= orig.update(pos as int, groups@[pos as int]));
                assert(groups_view(groups@) =~= groups_view(orig).update(pos as int, g2));
                assert(g2.records =~= groups_view(orig)[pos as int].records.push(x));
                lemma_step_existing(rv.take(idx as int), x, groups_view(orig), pos as int, g2);
            }
        } else {
            let mut members: Vec<ExtractedRecord> = Vec::new();
            members.push(r.clone());
            let g = Group { channel: r.channel_name.clone(), partition, records: members };
            let ghost orig = groups@;
            let ghost gview = g@;
            proof {
                assert(gview.records =~= seq![x]);
            }
            groups.insert(pos, g);
            proof {
                assert(groups_view(groups@) =~= groups_view(orig).insert(pos as int, gview));
                lemma_step_new(rv.take(idx as int), x, groups_view(orig), pos as int, gview);
            }
        }
        idx = idx + 1;
    }
    proof {
        assert(rv.take(records@.len() as int) =~= rv);
    }
    groups
}

} // verus!
