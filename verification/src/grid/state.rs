//! The state of the grid.

use vstd::prelude::*;

use crate::grid::entry;
use crate::grid::entry::{AvailableEntry, ServerEntry};
use crate::grid::protocol::{Outbox, ServerChannel};
use crate::grid::ranges;
use crate::grid::ranges::{Range, RangeKey};
use crate::grid::table;
use crate::grid::table::LayerTable;

verus! {

/// The index of one model.
pub struct ModelTable {
    pub model_id: String,
    pub table: LayerTable,
}

/// Everything that the router knows of the grid.
pub struct GridState {
    /// The serving servers, in the order in which they joined.
    pub servers: Vec<ServerEntry>,
    /// The spare servers, in the order in which they came.
    pub available_servers: Vec<AvailableEntry>,
    /// The index of each model that is served.
    pub route_table: Vec<ModelTable>,
    /// The index of all servers, whatever their model.
    pub any_model_table: LayerTable,
    /// How many replicas a range should have.
    pub target_replicas: u32,
    /// The ranges that should have one replica more.
    pub elevated_ranges: Vec<Range>,
    /// Where messages to spares go through.
    pub outbox: Outbox,
}

/// Whether no two servers share an id.
pub open spec fn distinct_servers(servers: Seq<ServerEntry>) -> bool {
    forall|i: int, j: int|
        0 <= i < servers.len() && 0 <= j < servers.len() && i != j ==> (
        #[trigger] servers[i]).server_id@ != (#[trigger] servers[j]).server_id@
}

/// Whether no two spares share an id.
pub open spec fn distinct_spares(spares: Seq<AvailableEntry>) -> bool {
    forall|i: int, j: int|
        0 <= i < spares.len() && 0 <= j < spares.len() && i != j ==> (
        #[trigger] spares[i]).server_id@ != (#[trigger] spares[j]).server_id@
}

/// Whether the given tables are the indices of the models that the servers
/// serve, one for each such model and none for another.
pub open spec fn tables_of(tables: Seq<ModelTable>, servers: Seq<ServerEntry>) -> bool {
    &&& forall|t: int|
        0 <= t < tables.len() ==> (#[trigger] tables[t]).table.indexes(
            servers,
            Some(tables[t].model_id@),
        )
    &&& forall|i: int|
        0 <= i < servers.len() ==> has_table(tables, (#[trigger] servers[i]).model_id@)
    &&& forall|t: int| 0 <= t < tables.len() ==> served(servers, (#[trigger] tables[t]).model_id@)
    &&& forall|t: int, u: int|
        0 <= t < tables.len() && 0 <= u < tables.len() && t != u ==> (
        #[trigger] tables[t]).model_id@ != (#[trigger] tables[u]).model_id@
}

/// Whether some server serves a model.
pub open spec fn served(servers: Seq<ServerEntry>, model_id: Seq<char>) -> bool {
    exists|i: int| 0 <= i < servers.len() && (#[trigger] servers[i]).model_id@ == model_id
}

/// Whether there is a table for a model.
pub open spec fn has_table(tables: Seq<ModelTable>, model_id: Seq<char>) -> bool {
    exists|t: int| 0 <= t < tables.len() && (#[trigger] tables[t]).model_id@ == model_id
}

/// The servers after one joins: it takes the place of the server with the same
/// id, or comes last.
pub open spec fn joined(servers: Seq<ServerEntry>, e: ServerEntry) -> Seq<ServerEntry>
    decreases servers.len(),
{
    if servers.len() == 0 {
        seq![e]
    } else if servers[0].server_id@ == e.server_id@ {
        seq![e] + servers.drop_first()
    } else {
        seq![servers[0]] + joined(servers.drop_first(), e)
    }
}

/// The spares after one comes: it takes the place of the spare with the same
/// id, or comes last.
pub open spec fn joined_spares(spares: Seq<AvailableEntry>, e: AvailableEntry) -> Seq<
    AvailableEntry,
>
    decreases spares.len(),
{
    if spares.len() == 0 {
        seq![e]
    } else if spares[0].server_id@ == e.server_id@ {
        seq![e] + spares.drop_first()
    } else {
        seq![spares[0]] + joined_spares(spares.drop_first(), e)
    }
}

impl GridState {
    /// Whether ids are unique, the indices match the servers, and there is a
    /// replica target.
    pub open spec fn wf(&self) -> bool {
        &&& distinct_servers(self.servers@)
        &&& distinct_spares(self.available_servers@)
        &&& tables_of(self.route_table@, self.servers@)
        &&& self.any_model_table.indexes(self.servers@, None)
        &&& self.target_replicas >= 1
        &&& ranges::distinct(self.elevated_ranges@)
    }

    /// Whether only the spares may differ.
    pub open spec fn same_but_spares(&self, other: &GridState) -> bool {
        &&& self.servers == other.servers
        &&& self.route_table == other.route_table
        &&& self.any_model_table == other.any_model_table
        &&& self.target_replicas == other.target_replicas
        &&& self.elevated_ranges == other.elevated_ranges
    }

    /// Whether only the elevated ranges may differ.
    pub open spec fn same_but_elevation(&self, other: &GridState) -> bool {
        &&& self.servers == other.servers
        &&& self.available_servers == other.available_servers
        &&& self.route_table == other.route_table
        &&& self.any_model_table == other.any_model_table
        &&& self.target_replicas == other.target_replicas
        &&& self.outbox == other.outbox
    }

    /// Whether a range is elevated.
    pub open spec fn elevated(&self, k: RangeKey) -> bool {
        ranges::lists(self.elevated_ranges@, k)
    }
}

impl Default for GridState {
    /// A grid without servers that wants one replica of each range.
    fn default() -> (s: Self)
        ensures
            s.wf(),
            s.servers@.len() == 0,
            s.available_servers@.len() == 0,
            s.target_replicas == 1,
            s.elevated_ranges@.len() == 0,
            s.outbox.log().len() == 0,
    {
        let servers: Vec<ServerEntry> = Vec::new();
        let any_model_table: LayerTable = LayerTable::build(&servers, None);
        GridState {
            servers,
            available_servers: Vec::new(),
            route_table: Vec::new(),
            any_model_table,
            target_replicas: 1,
            elevated_ranges: Vec::new(),
            outbox: Outbox::new(),
        }
    }
}

pub proof fn lemma_joined(servers: Seq<ServerEntry>, e: ServerEntry, p: int)
    requires
        0 <= p <= servers.len(),
        forall|i: int| 0 <= i < p ==> (#[trigger] servers[i]).server_id@ != e.server_id@,
        p < servers.len() ==> servers[p].server_id@ == e.server_id@,
    ensures
        joined(servers, e) == if p < servers.len() {
            servers.update(p, e)
        } else {
            servers.push(e)
        },
    decreases servers.len(),
{
    if servers.len() == 0 {
        assert(seq![e] =~= servers.push(e));
    } else if p == 0 {
        assert(seq![e] + servers.drop_first() =~= servers.update(0, e));
    } else {
        let rest = servers.drop_first();
        assert(servers[0].server_id@ != e.server_id@);
        assert forall|i: int| 0 <= i < p - 1 implies (#[trigger] rest[i]).server_id@
            != e.server_id@ by {
            assert(rest[i] == servers[i + 1]);
        }
        lemma_joined(rest, e, p - 1);
        if p < servers.len() {
            assert(seq![servers[0]] + rest.update(p - 1, e) =~= servers.update(p, e));
        } else {
            assert(seq![servers[0]] + rest.push(e) =~= servers.push(e));
        }
    }
}

proof fn lemma_joined_spares(spares: Seq<AvailableEntry>, e: AvailableEntry, p: int)
    requires
        0 <= p <= spares.len(),
        forall|i: int| 0 <= i < p ==> (#[trigger] spares[i]).server_id@ != e.server_id@,
        p < spares.len() ==> spares[p].server_id@ == e.server_id@,
    ensures
        joined_spares(spares, e) == if p < spares.len() {
            spares.update(p, e)
        } else {
            spares.push(e)
        },
    decreases spares.len(),
{
    if spares.len() == 0 {
        assert(seq![e] =~= spares.push(e));
    } else if p == 0 {
        assert(seq![e] + spares.drop_first() =~= spares.update(0, e));
    } else {
        let rest = spares.drop_first();
        assert(spares[0].server_id@ != e.server_id@);
        assert forall|i: int| 0 <= i < p - 1 implies (#[trigger] rest[i]).server_id@
            != e.server_id@ by {
            assert(rest[i] == spares[i + 1]);
        }
        lemma_joined_spares(rest, e, p - 1);
        if p < spares.len() {
            assert(seq![spares[0]] + rest.update(p - 1, e) =~= spares.update(p, e));
        } else {
            assert(seq![spares[0]] + rest.push(e) =~= spares.push(e));
        }
    }
}

/// The place of the first spare with an id, or the number of spares.
pub fn spare_place(spares: &Vec<AvailableEntry>, server_id: &String) -> (p: usize)
    ensures
        p <= spares@.len(),
        forall|i: int| 0 <= i < p ==> (#[trigger] spares@[i]).server_id@ != server_id@,
        p < spares@.len() ==> spares@[p as int].server_id@ == server_id@,
{
    let mut p: usize = 0;
    while p < spares.len() && spares[p].server_id != *server_id
        invariant
            p <= spares@.len(),
            forall|i: int| 0 <= i < p ==> (#[trigger] spares@[i]).server_id@ != server_id@,
        decreases spares@.len() - p,
    {
        p += 1;
    }
    p
}

impl GridState {
    /// Adds a serving server, or replaces the one with the same id, and brings
    /// the indices up to date.
    pub fn register(&mut self, e: ServerEntry)
        requires
            old(self).wf(),
        ensures
            final(self).wf(),
            final(self).servers@ == joined(old(self).servers@, e),
            final(self).available_servers == old(self).available_servers,
            final(self).target_replicas == old(self).target_replicas,
            final(self).elevated_ranges == old(self).elevated_ranges,
            final(self).outbox == old(self).outbox,
    {
        let mut p: usize = 0;
        while p < self.servers.len() && self.servers[p].server_id != e.server_id
            invariant
                *self == *old(self),
                p <= self.servers@.len(),
                forall|i: int|
                    0 <= i < p ==> (#[trigger] self.servers@[i]).server_id@ != e.server_id@,
            decreases self.servers@.len() - p,
        {
            p += 1;
        }
        proof {
            lemma_joined(self.servers@, e, p as int);
        }
        if p < self.servers.len() {
            self.servers.set(p, e);
        } else {
            self.servers.push(e);
        }
        self.rebuild_route_table();
    }

    /// Adds a spare server, or replaces the one with the same id.
    pub fn register_available(
        &mut self,
        server_id: String,
        sender: ServerChannel,
        ram_bytes: u64,
        disk_bytes: u64,
        store_path: String,
    )
        requires
            old(self).wf(),
        ensures
            final(self).wf(),
            final(self).same_but_spares(old(self)),
            final(self).available_servers@ == joined_spares(
                old(self).available_servers@,
                (AvailableEntry { server_id, sender, ram_bytes, disk_bytes, store_path }),
            ),
            final(self).outbox == old(self).outbox,
    {
        let p: usize = spare_place(&self.available_servers, &server_id);
        let e: AvailableEntry = AvailableEntry {
            server_id,
            sender,
            ram_bytes,
            disk_bytes,
            store_path,
        };
        proof {
            lemma_joined_spares(self.available_servers@, e, p as int);
        }
        if p < self.available_servers.len() {
            self.available_servers.set(p, e);
        } else {
            self.available_servers.push(e);
        }
    }

    /// Whether there are spares.
    pub fn has_available_servers(&self) -> (b: bool)
        ensures
            b == (self.available_servers@.len() > 0),
    {
        self.available_servers.len() > 0
    }

    /// Brings the indices up to date with the servers. Needed only when a
    /// server joins or leaves.
    pub fn rebuild_route_table(&mut self)
        ensures
            tables_of(final(self).route_table@, final(self).servers@),
            final(self).any_model_table.indexes(final(self).servers@, None),
            final(self).servers == old(self).servers,
            final(self).available_servers == old(self).available_servers,
            final(self).target_replicas == old(self).target_replicas,
            final(self).elevated_ranges == old(self).elevated_ranges,
            final(self).outbox == old(self).outbox,
    {
        let mut tables: Vec<ModelTable> = Vec::new();
        for i in 0..self.servers.len()
            invariant
                *self == *old(self),
                forall|t: int|
                    0 <= t < tables@.len() ==> (#[trigger] tables@[t]).table.indexes(
                        self.servers@,
                        Some(tables@[t].model_id@),
                    ),
                forall|k: int|
                    0 <= k < i ==> has_table(tables@, (#[trigger] self.servers@[k]).model_id@),
                forall|t: int|
                    0 <= t < tables@.len() ==> served(
                        self.servers@,
                        (#[trigger] tables@[t]).model_id@,
                    ),
                forall|t: int, u: int|
                    0 <= t < tables@.len() && 0 <= u < tables@.len() && t != u ==> (
                    #[trigger] tables@[t]).model_id@ != (#[trigger] tables@[u]).model_id@,
        {
            let model_id: String = self.servers[i].model_id.clone();
            if model_place(&tables, &model_id).is_none() {
                let ghost before: Seq<ModelTable> = tables@;
                let table: LayerTable = LayerTable::build(&self.servers, Some(&model_id));
                assert(entry::named(Some(&model_id)) == Some(model_id@));
                tables.push(ModelTable { model_id, table });
                assert forall|k: int| 0 <= k < i implies has_table(
                    tables@,
                    (#[trigger] self.servers@[k]).model_id@,
                ) by {
                    let m = self.servers@[k].model_id@;
                    assert(has_table(before, m));
                    let t = choose|t: int|
                        0 <= t < before.len() && (#[trigger] before[t]).model_id@ == m;
                    assert(tables@[t].model_id@ == m);
                }
                assert(tables@[tables@.len() - 1].model_id@ == self.servers@[i as int].model_id@);
                assert(served(self.servers@, self.servers@[i as int].model_id@));
                assert forall|t: int, u: int|
                    0 <= t < tables@.len() && 0 <= u < tables@.len() && t != u implies (
                #[trigger] tables@[t]).model_id@ != (#[trigger] tables@[u]).model_id@ by {
                    if t < before.len() {
                        assert(tables@[t] == before[t]);
                        assert(has_table(before, before[t].model_id@));
                    }
                    if u < before.len() {
                        assert(tables@[u] == before[u]);
                        assert(has_table(before, before[u].model_id@));
                    }
                }
            }
        }
        let any: LayerTable = LayerTable::build(&self.servers, None);
        self.route_table = tables;
        self.any_model_table = any;
    }
}

/// The place of a model's table.
pub fn model_place(tables: &Vec<ModelTable>, model_id: &String) -> (p: Option<usize>)
    ensures
        p is Some == has_table(tables@, model_id@),
        p matches Some(t) ==> t < tables@.len() && tables@[t as int].model_id@ == model_id@,
{
    for t in 0..tables.len()
        invariant
            forall|k: int| 0 <= k < t ==> (#[trigger] tables@[k]).model_id@ != model_id@,
    {
        if tables[t].model_id == *model_id {
            return Some(t);
        }
    }
    None
}

pub proof fn lemma_joined_len(servers: Seq<ServerEntry>, e: ServerEntry)
    ensures
        servers.len() <= joined(servers, e).len() <= servers.len() + 1,
    decreases servers.len(),
{
    if servers.len() > 0 && servers[0].server_id@ != e.server_id@ {
        lemma_joined_len(servers.drop_first(), e);
    }
}

/// A server that joins is among the servers afterwards, and so are all the
/// others with other ids; nobody else is.
pub proof fn law_join_adds_one_and_keeps_the_others(servers: Seq<ServerEntry>, e: ServerEntry)
    requires
        distinct_servers(servers),
    ensures
        distinct_servers(joined(servers, e)),
        joined(servers, e).contains(e),
        forall|x: ServerEntry|
            x.server_id@ != e.server_id@ ==> #[trigger] joined(servers, e).contains(x)
                == servers.contains(x),
        forall|x: ServerEntry|
            x.server_id@ == e.server_id@ && #[trigger] joined(servers, e).contains(x) ==> x == e,
{
    let p = place_of(servers, e.server_id@, 0);
    lemma_place_of(servers, e.server_id@, 0);
    lemma_joined(servers, e, p);
    let after = joined(servers, e);
    assert(after[p] == e);
    assert forall|x: ServerEntry| x.server_id@ != e.server_id@ implies #[trigger] after.contains(x)
        == servers.contains(x) by {
        if servers.contains(x) {
            let i = choose|i: int| 0 <= i < servers.len() && servers[i] == x;
            assert(after[i] == x);
        }
        if after.contains(x) {
            let i = choose|i: int| 0 <= i < after.len() && after[i] == x;
            assert(servers[i] == x);
        }
    }
    assert forall|i: int, j: int|
        0 <= i < after.len() && 0 <= j < after.len() && i != j implies (
    #[trigger] after[i]).server_id@ != (#[trigger] after[j]).server_id@ by {
        if i != p {
            assert(after[i] == servers[i]);
        }
        if j != p {
            assert(after[j] == servers[j]);
        }
    }
}

/// The first place, from `n` on, of a server with an id, or the number of
/// servers.
spec fn place_of(servers: Seq<ServerEntry>, server_id: Seq<char>, n: int) -> int
    decreases servers.len() - n,
{
    if n >= servers.len() {
        servers.len() as int
    } else if servers[n].server_id@ == server_id {
        n
    } else {
        place_of(servers, server_id, n + 1)
    }
}

proof fn lemma_place_of(servers: Seq<ServerEntry>, server_id: Seq<char>, n: int)
    requires
        0 <= n <= servers.len(),
    ensures
        n <= place_of(servers, server_id, n) <= servers.len(),
        forall|i: int|
            n <= i < place_of(servers, server_id, n) ==> (#[trigger] servers[i]).server_id@
                != server_id,
        place_of(servers, server_id, n) < servers.len() ==> servers[place_of(
            servers,
            server_id,
            n,
        )].server_id@ == server_id,
    decreases servers.len() - n,
{
    if n < servers.len() && servers[n].server_id@ != server_id {
        lemma_place_of(servers, server_id, n + 1);
    }
}

/// What a rebuild leaves depends on the servers alone: whatever tables there
/// were before, a model has a table afterwards exactly when some server serves
/// it, and its entries are those of any other rebuild.
pub proof fn law_rebuild_is_determined(
    a: Seq<ModelTable>,
    b: Seq<ModelTable>,
    servers: Seq<ServerEntry>,
    model_id: Seq<char>,
)
    requires
        tables_of(a, servers),
        tables_of(b, servers),
    ensures
        has_table(a, model_id) == served(servers, model_id),
        has_table(a, model_id) == has_table(b, model_id),
        forall|t: int, u: int, layer: u32|
            0 <= t < a.len() && 0 <= u < b.len() && (#[trigger] a[t]).model_id@ == model_id && (
            #[trigger] b[u]).model_id@ == model_id ==> a[t].table.slots@.contains_key(layer)
                == b[u].table.slots@.contains_key(layer) && #[trigger] a[t].table.slot(layer)
                == b[u].table.slot(layer),
{
    assert forall|tables: Seq<ModelTable>| tables_of(tables, servers) implies #[trigger] has_table(
        tables,
        model_id,
    ) == served(servers, model_id) by {
        if has_table(tables, model_id) {
            let t = choose|t: int|
                0 <= t < tables.len() && (#[trigger] tables[t]).model_id@ == model_id;
            assert(served(servers, tables[t].model_id@));
        }
        if served(servers, model_id) {
            let i = choose|i: int|
                0 <= i < servers.len() && (#[trigger] servers[i]).model_id@ == model_id;
            assert(has_table(tables, servers[i].model_id@));
        }
    }
    assert forall|t: int, u: int, layer: u32|
        0 <= t < a.len() && 0 <= u < b.len() && (#[trigger] a[t]).model_id@ == model_id && (
        #[trigger] b[u]).model_id@ == model_id implies a[t].table.slots@.contains_key(layer)
        == b[u].table.slots@.contains_key(layer) && #[trigger] a[t].table.slot(layer)
        == b[u].table.slot(layer) by {
        table::law_index_is_determined(a[t].table, b[u].table, servers, Some(model_id), layer);
    }
}

} // verus!
