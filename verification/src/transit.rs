//! The legacy transit shim: a stable line id for each legacy route id, and
//! the legacy link ids of each line in route order.
use vstd::prelude::*;

use crate::ids::LineId;
use crate::text::str_equal;

verus! {

/// Legacy routes by line: line `i` is the `i`-th route registered, with its
/// route id and its links.
#[derive(Debug, Clone)]
pub struct LegacyTransitShim {
    lines: Vec<(String, Vec<String>)>,
}

/// The character views of a list of strings.
pub open spec fn ids_view(v: Seq<String>) -> Seq<Seq<char>> {
    v.map_values(|s: String| s@)
}

impl LegacyTransitShim {
    /// At most one line per possible id, and no route id twice.
    pub closed spec fn well_formed(&self) -> bool {
        &&& self.lines@.len() <= u32::MAX as nat + 1
        &&& forall|i: int, j: int| 0 <= i < j < self.lines@.len() ==> (#[trigger] self.lines@[i]).0@ != (#[trigger] self.lines@[j]).0@
    }

    /// The route id of each line, by line id.
    pub closed spec fn routes(&self) -> Seq<Seq<char>> {
        self.lines@.map_values(|l: (String, Vec<String>)| l.0@)
    }

    /// The link ids of each line, by line id.
    pub closed spec fn links(&self) -> Seq<Seq<Seq<char>>> {
        self.lines@.map_values(|l: (String, Vec<String>)| ids_view(l.1@))
    }

    /// No route registered.
    pub fn new() -> (r: Self)
        ensures
            r.well_formed(),
            r.routes().len() == 0,
            r.links().len() == 0,
    {
        LegacyTransitShim { lines: Vec::new() }
    }

    /// Lines and link lists come in pairs, and no route id appears twice.
    pub proof fn lemma_shape(&self)
        requires
            self.well_formed(),
        ensures
            self.routes().len() == self.links().len(),
            self.routes().len() <= u32::MAX as nat + 1,
            forall|i: int, j: int| 0 <= i < j < self.routes().len() ==> self.routes()[i] != self.routes()[j],
    {
        assert forall|i: int, j: int| 0 <= i < j < self.routes().len() implies self.routes()[i] != self.routes()[j] by {
            assert(self.routes()[i] == self.lines@[i].0@);
            assert(self.routes()[j] == self.lines@[j].0@);
        }
    }

    /// The line registered for `route_id`.
    pub fn line_id_for_route(&self, route_id: &str) -> (r: Option<LineId>)
        requires
            self.well_formed(),
        ensures
            match r {
                Some(id) => (id.0 as int) < self.routes().len() && self.routes()[id.0 as int] == route_id@,
                None => !self.routes().contains(route_id@),
            },
    {
        let n = self.lines.len();
        let mut i: usize = 0;
        while i < n
            invariant
                n == self.lines@.len(),
                n <= u32::MAX as nat + 1,
                i <= n,
                forall|j: int| 0 <= j < i ==> self.routes()[j] != route_id@,
            decreases n - i,
        {
            if str_equal(self.lines[i].0.as_str(), route_id) {
                assert(self.routes()[i as int] == self.lines@[i as int].0@);
                return Some(LineId(i as u32));
            }
            assert(self.routes()[i as int] == self.lines@[i as int].0@);
            i = i + 1;
        }
        None
    }

    /// The route id of line `line_id`.
    pub fn route_id_for_line(&self, line_id: LineId) -> (r: Option<&String>)
        ensures
            match r {
                Some(s) => (line_id.0 as int) < self.routes().len() && s@ == self.routes()[line_id.0 as int],
                None => (line_id.0 as int) >= self.routes().len(),
            },
    {
        if (line_id.0 as usize) < self.lines.len() {
            Some(&self.lines[line_id.0 as usize].0)
        } else {
            None
        }
    }

    /// Link `edge_index` of line `line_id`.
    pub fn link_for(&self, line_id: LineId, edge_index: usize) -> (r: Option<&String>)
        ensures
            match r {
                Some(s) => (line_id.0 as int) < self.links().len() && edge_index < self.links()[line_id.0 as int].len()
                    && s@ == self.links()[line_id.0 as int][edge_index as int],
                None => (line_id.0 as int) >= self.links().len() || edge_index >= self.links()[line_id.0 as int].len(),
            },
    {
        let l = line_id.0 as usize;
        if l < self.lines.len() && edge_index < self.lines[l].1.len() {
            Some(&self.lines[l].1[edge_index])
        } else {
            None
        }
    }

    /// The links of line `line_id`.
    pub fn links_for(&self, line_id: LineId) -> (r: Option<&[String]>)
        ensures
            match r {
                Some(s) => (line_id.0 as int) < self.links().len() && ids_view(s@) == self.links()[line_id.0 as int],
                None => (line_id.0 as int) >= self.links().len(),
            },
    {
        let l = line_id.0 as usize;
        if l < self.lines.len() {
            Some(self.lines[l].1.as_slice())
        } else {
            None
        }
    }

    /// Registers legacy route `route_id` with `links`: a route seen before
    /// keeps its line and takes the new links; a new route gets the next
    /// line id. Returns the route's line.
    pub fn register_route(&mut self, route_id: &str, links: &[String]) -> (r: LineId)
        requires
            old(self).well_formed(),
            old(self).routes().contains(route_id@) || old(self).routes().len() <= u32::MAX,
        ensures
            final(self).well_formed(),
            (r.0 as int) < final(self).routes().len(),
            final(self).routes()[r.0 as int] == route_id@,
            old(self).routes().contains(route_id@) ==> {
                &&& final(self).routes() == old(self).routes()
                &&& final(self).links() == old(self).links().update(r.0 as int, ids_view(links@))
            },
            !old(self).routes().contains(route_id@) ==> {
                &&& r.0 == old(self).routes().len()
                &&& final(self).routes() == old(self).routes().push(route_id@)
                &&& final(self).links() == old(self).links().push(ids_view(links@))
            },
    {
        let copied = copy_ids(links);
        match self.line_id_for_route(route_id) {
            Some(id) => {
                let ghost before = self.lines@;
                let idx = id.0 as usize;
                let mut lines = Vec::new();
                std::mem::swap(&mut lines, &mut self.lines);
                let name = lines[idx].0.clone();
                lines.set(idx, (name, copied));
                assert forall|i: int, j: int| 0 <= i < j < lines@.len() implies (#[trigger] lines@[i]).0@ != (#[trigger] lines@[j]).0@ by {
                    assert(lines@[i].0@ == before[i].0@);
                    assert(lines@[j].0@ == before[j].0@);
                }
                self.lines = lines;
                assert(self.routes() =~= old(self).routes()) by {
                    assert forall|i: int| 0 <= i < self.routes().len() implies self.routes()[i] == old(self).routes()[i] by {
                        assert(self.lines@[i].0@ == before[i].0@);
                    }
                }
                assert(self.links() =~= old(self).links().update(idx as int, ids_view(links@)));
                id
            },
            None => {
                let id = LineId(self.lines.len() as u32);
                let ghost before = self.lines@;
                let mut lines = Vec::new();
                std::mem::swap(&mut lines, &mut self.lines);
                lines.push((String::from_str(route_id), copied));
                assert forall|i: int, j: int| 0 <= i < j < lines@.len() implies (#[trigger] lines@[i]).0@ != (#[trigger] lines@[j]).0@ by {
                    if j == before.len() {
                        assert(old(self).routes()[i] == before[i].0@);
                    } else {
                        assert(lines@[i] == before[i] && lines@[j] == before[j]);
                    }
                }
                self.lines = lines;
                assert(self.routes() =~= old(self).routes().push(route_id@));
                assert(self.links() =~= old(self).links().push(ids_view(links@)));
                id
            },
        }
    }
}

impl Default for LegacyTransitShim {
    fn default() -> (r: Self)
        ensures
            r.well_formed(),
            r.routes().len() == 0,
            r.links().len() == 0,
    {
        LegacyTransitShim::new()
    }
}

/// Copies of the strings of `v`.
fn copy_ids(v: &[String]) -> (r: Vec<String>)
    ensures
        ids_view(r@) == ids_view(v@),
{
    let mut out: Vec<String> = Vec::new();
    let mut i: usize = 0;
    while i < v.len()
        invariant
            i <= v@.len(),
            ids_view(out@) == ids_view(v@.subrange(0, i as int)),
        decreases v@.len() - i,
    {
        let s = v[i].clone();
        assert(s@ == v@[i as int]@);
        let ghost before = out@;
        out.push(s);
        assert(ids_view(out@) =~= ids_view(before).push(v@[i as int]@));
        assert(v@.subrange(0, i + 1) =~= v@.subrange(0, i as int).push(v@[i as int]));
        assert(ids_view(v@.subrange(0, i + 1)) =~= ids_view(v@.subrange(0, i as int)).push(v@[i as int]@));
        i = i + 1;
    }
    assert(v@.subrange(0, v@.len() as int) =~= v@);
    out
}

/// A route id names one line only: looking a registered route up gives
/// back the line it was registered under.
pub proof fn lemma_route_names_one_line(shim: &LegacyTransitShim, a: int, b: int)
    requires
        shim.well_formed(),
        0 <= a < shim.routes().len(),
        0 <= b < shim.routes().len(),
        shim.routes()[a] == shim.routes()[b],
    ensures
        a == b,
{
    shim.lemma_shape();
    if a < b {
    } else if b < a {
    }
}

} // verus!
