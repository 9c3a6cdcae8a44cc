//! A byte-trie path router.
//!
//! A [`RoutingTable`] is an arena of 128-slot tables. Every byte of a path is
//! reduced to its class (`byte % 128`) and selects one slot of the current
//! table, so a byte above 127 is taken for the byte 128 below it. A slot
//! links on to the table for the next byte, ends a route, does both, or
//! does neither. The table is built once by [`RoutingTable::insert`] and
//! afterwards only read by [`RoutingTable::match_path`].
//!
//! A registered path is a mount point, not an exact match: a lookup ends at
//! the first registered path that no longer registered path continues, and
//! hands the rest of the input back. Where longer registered paths continue
//! a registered path, that path is found only if the input ends with it. The
//! empty path has no route.
//!
//! The abstract value of a table is the map from registered class sequences to
//! routes. All contracts speak of that map; [`matched`] says what a lookup
//! yields.
use vstd::prelude::*;
use vstd::utf8::is_char_boundary;
use vstd::utf8::is_char_boundary_iff_not_is_continuation_byte;
use vstd::utf8::is_char_boundary_start_end_of_seq;
use vstd::utf8::valid_utf8;
use vstd::utf8::valid_utf8_concat;
use vstd::string::StringSliceAdditionalSpecFns;

verus! {

/// One slot of a table.
enum TablePointer<R: Copy> {
    /// Continue in the given table; no route ends here.
    Link(usize),
    /// A route ends here and no registered path goes on.
    Route(R),
    /// A route ends here, and longer registered paths continue in the given table.
    RouteWithLink(usize, R),
    /// No registered path passes through this slot.
    NotFound,
}

impl<R: Copy> Clone for TablePointer<R> {
    fn clone(&self) -> (copy: TablePointer<R>)
        ensures
            copy == *self,
    {
        *self
    }
}

impl<R: Copy> Copy for TablePointer<R> {

}

/// A table without links and routes.
fn empty_table<R: Copy>() -> (table: [TablePointer<R>; 128])
    ensures
        forall|s: int| 0 <= s < 128 ==> #[trigger] table[s] is NotFound,
{
    let mut table: [TablePointer<R>; 128] = [TablePointer::NotFound; 128];
    let mut i: usize = 0;
    while i < 128
        invariant
            i <= 128,
            forall|s: int| 0 <= s < i ==> #[trigger] table[s] is NotFound,
        decreases 128 - i,
    {
        table[i] = TablePointer::NotFound;
        i += 1;
    }
    table
}

/// The error of a lookup that finds no route.
#[derive(Clone, Copy, Debug, PartialEq, Eq)]
pub struct NoMatchingRoute;

/// The error of a registration that the table cannot take: the path is
/// empty, or its class sequence has a route already.
#[derive(Clone, Copy, Debug, PartialEq, Eq)]
pub struct ConfigurationConflict;

/// The result of a lookup on text: the route and the unconsumed rest of the path.
pub type RouteMatch<'a, R> = Result<(R, &'a str), NoMatchingRoute>;

/// The path dispatcher.
pub struct RoutingTable<R: Copy> {
    tables: Vec<[TablePointer<R>; 128]>,
    /// For each table, the class sequence that leads to it from the root.
    keys: Ghost<Seq<Seq<u8>>>,
    /// For each table but the root, the table that links to it.
    parents: Ghost<Seq<int>>,
    /// The registered class sequences and their routes.
    routes: Ghost<Map<Seq<u8>, R>>,
}

/// The slot a byte selects.
pub open spec fn byte_class(b: u8) -> u8 {
    b % 128
}

/// The slot sequence of a path: each byte reduced to its class.
pub open spec fn classes(path: Seq<u8>) -> Seq<u8> {
    Seq::new(path.len(), |i: int| byte_class(path[i]))
}

/// `q` is registered and is strictly longer than its prefix `k`.
pub open spec fn longer_route<R>(routes: Map<Seq<u8>, R>, k: Seq<u8>, q: Seq<u8>) -> bool {
    &&& routes.dom().contains(q)
    &&& k.len() < q.len()
    &&& q.take(k.len() as int) =~= k
}

/// Some registered path is strictly longer than its prefix `k`.
pub open spec fn has_longer<R>(routes: Map<Seq<u8>, R>, k: Seq<u8>) -> bool {
    exists|q: Seq<u8>| longer_route(routes, k, q)
}

/// A lookup of the class sequence `path` ends after `n` positions: the first
/// `n` classes are a registered path, and either the input ends there or no
/// registered path goes on from there.
pub open spec fn stops_at<R>(routes: Map<Seq<u8>, R>, path: Seq<u8>, n: int) -> bool {
    &&& 1 <= n <= path.len()
    &&& routes.dom().contains(path.take(n))
    &&& (n == path.len() || !has_longer(routes, path.take(n)))
}

/// What a lookup of the bytes `path` yields: the route, and how many bytes
/// of the path it consumed. There is at most one stop, see
/// [`lemma_stop_unique`].
pub open spec fn matched<R>(routes: Map<Seq<u8>, R>, path: Seq<u8>) -> Option<(R, int)> {
    let c = classes(path);
    if exists|n: int| stops_at(routes, c, n) {
        let n = choose|n: int| stops_at(routes, c, n);
        Some((routes[c.take(n)], n))
    } else {
        None
    }
}

/// What a lookup of a text yields: as [`matched`], unless the rest of the path
/// would start inside a character, which can happen only where a byte above
/// 127 was taken for its class. Such a path has no route.
pub open spec fn matched_text<R>(routes: Map<Seq<u8>, R>, path: Seq<u8>) -> Option<(R, int)> {
    match matched(routes, path) {
        Some((route, n)) => if is_char_boundary(path, n) {
            Some((route, n))
        } else {
            None
        },
        None => None,
    }
}

/// A lookup stops at no more than one position.
pub proof fn lemma_stop_unique<R>(routes: Map<Seq<u8>, R>, path: Seq<u8>, n1: int, n2: int)
    requires
        stops_at(routes, path, n1),
        stops_at(routes, path, n2),
    ensures
        n1 == n2,
{
    if n1 < n2 {
        assert(path.take(n2).take(n1) =~= path.take(n1));
        assert(longer_route(routes, path.take(n1), path.take(n2)));
    }
    if n2 < n1 {
        assert(path.take(n1).take(n2) =~= path.take(n2));
        assert(longer_route(routes, path.take(n2), path.take(n1)));
    }
}

/// A stop fixes the result of the lookup.
pub proof fn lemma_matched_at<R>(routes: Map<Seq<u8>, R>, path: Seq<u8>, n: int)
    requires
        stops_at(routes, classes(path), n),
    ensures
        matched(routes, path) == Some((routes[classes(path).take(n)], n)),
{
    let c = classes(path);
    let m = choose|m: int| stops_at(routes, c, m);
    lemma_stop_unique(routes, c, n, m);
}

/// Every registered path is found, with nothing left over.
pub proof fn lemma_registered_path_matches<R>(routes: Map<Seq<u8>, R>, path: Seq<u8>)
    requires
        path.len() > 0,
        routes.dom().contains(classes(path)),
    ensures
        matched(routes, path) == Some((routes[classes(path)], path.len() as int)),
{
    let c = classes(path);
    assert(c.take(c.len() as int) =~= c);
    assert(stops_at(routes, c, c.len() as int));
    lemma_matched_at(routes, path, c.len() as int);
}

/// A registered path that no longer registered path continues is a mount
/// point: every extension of it is found, and the extension is what is left
/// over.
pub proof fn lemma_mount_point_matches<R>(
    routes: Map<Seq<u8>, R>,
    path: Seq<u8>,
    suffix: Seq<u8>,
)
    requires
        path.len() > 0,
        routes.dom().contains(classes(path)),
        !has_longer(routes, classes(path)),
    ensures
        matched(routes, path + suffix) == Some((routes[classes(path)], path.len() as int)),
        (path + suffix).skip(path.len() as int) == suffix,
{
    let whole = path + suffix;
    let c = classes(whole);
    let n = path.len() as int;
    assert(c.take(n) =~= classes(path));
    assert(stops_at(routes, c, n));
    lemma_matched_at(routes, whole, n);
    assert(whole.skip(n) =~= suffix);
}

/// Every registered path that is text is found as text, with nothing left
/// over.
pub proof fn lemma_registered_text_matches<R>(routes: Map<Seq<u8>, R>, path: Seq<u8>)
    requires
        path.len() > 0,
        valid_utf8(path),
        routes.dom().contains(classes(path)),
    ensures
        matched_text(routes, path) == Some((routes[classes(path)], path.len() as int)),
{
    lemma_registered_path_matches(routes, path);
    is_char_boundary_start_end_of_seq(path);
}

/// A mount point that is text is found in every text that extends it, and
/// the extension is what is left over.
pub proof fn lemma_mount_point_text_matches<R>(
    routes: Map<Seq<u8>, R>,
    path: Seq<u8>,
    suffix: Seq<u8>,
)
    requires
        path.len() > 0,
        valid_utf8(path),
        valid_utf8(suffix),
        routes.dom().contains(classes(path)),
        !has_longer(routes, classes(path)),
    ensures
        matched_text(routes, path + suffix) == Some((routes[classes(path)], path.len() as int)),
        (path + suffix).skip(path.len() as int) == suffix,
{
    let whole = path + suffix;
    lemma_mount_point_matches(routes, path, suffix);
    valid_utf8_concat(path, suffix);
    if suffix.len() == 0 {
        assert(whole =~= path);
        is_char_boundary_start_end_of_seq(whole);
    } else {
        is_char_boundary_start_end_of_seq(suffix);
        is_char_boundary_iff_not_is_continuation_byte(suffix, 0);
        is_char_boundary_iff_not_is_continuation_byte(whole, path.len() as int);
        assert(whole[path.len() as int] == suffix[0]);
    }
}

impl<R: Copy> RoutingTable<R> {
    /// The registered class sequences and their routes.
    pub closed spec fn view(&self) -> Map<Seq<u8>, R> {
        self.routes@
    }

    spec fn links_to(node: TablePointer<R>, c: int) -> bool {
        match node {
            TablePointer::Link(x) => x == c,
            TablePointer::RouteWithLink(x, _) => x == c,
            _ => false,
        }
    }

    /// What the slot reached by the class sequence `k` says about the routes.
    spec fn slot_ok(
        node: TablePointer<R>,
        k: Seq<u8>,
        keys: Seq<Seq<u8>>,
        routes: Map<Seq<u8>, R>,
    ) -> bool {
        match node {
            TablePointer::NotFound => forall|q: Seq<u8>| #[trigger]
                routes.dom().contains(q) && k.len() <= q.len() ==> !(q.take(k.len() as int) =~= k),
            TablePointer::Route(r) => routes.dom().contains(k) && routes[k] == r && !has_longer(
                routes,
                k,
            ),
            TablePointer::Link(c) => !routes.dom().contains(k) && c < keys.len() && keys[c as int]
                == k && has_longer(routes, k),
            TablePointer::RouteWithLink(c, r) => routes.dom().contains(k) && routes[k] == r && c
                < keys.len() && keys[c as int] == k && has_longer(routes, k),
        }
    }

    spec fn slot_fine(
        tables: Seq<[TablePointer<R>; 128]>,
        keys: Seq<Seq<u8>>,
        routes: Map<Seq<u8>, R>,
        t: int,
        s: int,
    ) -> bool {
        Self::slot_ok(tables[t][s], keys[t].push(s as u8), keys, routes)
    }

    spec fn child_ok(
        tables: Seq<[TablePointer<R>; 128]>,
        keys: Seq<Seq<u8>>,
        parents: Seq<int>,
        t: int,
    ) -> bool {
        &&& 0 <= parents[t] < keys.len()
        &&& keys[t].len() >= 1
        &&& keys[t].last() < 128
        &&& keys[parents[t]] =~= keys[t].drop_last()
        &&& Self::links_to(tables[parents[t]][keys[t].last() as int], t)
    }

    spec fn shape_ok(
        tables: Seq<[TablePointer<R>; 128]>,
        keys: Seq<Seq<u8>>,
        parents: Seq<int>,
    ) -> bool {
        &&& tables.len() >= 1
        &&& keys.len() == tables.len()
        &&& parents.len() == tables.len()
        &&& keys[0].len() == 0
        &&& forall|a: int, b: int|
            0 <= a < b < keys.len() ==> #[trigger] keys[a] != #[trigger] keys[b]
        &&& forall|t: int|
            1 <= t < keys.len() ==> #[trigger] Self::child_ok(tables, keys, parents, t)
    }

    /// The tables form a trie whose slots say exactly what `self@` holds.
    pub closed spec fn wf(&self) -> bool {
        &&& Self::shape_ok(self.tables@, self.keys@, self.parents@)
        &&& forall|q: Seq<u8>| #[trigger] self.routes@.dom().contains(q) ==> q.len() > 0
        &&& forall|t: int, s: int|
            0 <= t < self.tables@.len() && 0 <= s < 128 ==> #[trigger] Self::slot_fine(
                self.tables@,
                self.keys@,
                self.routes@,
                t,
                s,
            )
    }

    /// An empty table: no path has a route.
    pub fn new() -> (table: RoutingTable<R>)
        ensures
            table.wf(),
            table@ == Map::<Seq<u8>, R>::empty(),
    {
        let zero_table: [TablePointer<R>; 128] = empty_table();
        let mut tables: Vec<[TablePointer<R>; 128]> = Vec::new();
        tables.push(zero_table);
        let ghost keys: Seq<Seq<u8>> = seq![Seq::<u8>::empty()];
        let ghost parents: Seq<int> = seq![0int];
        let ghost routes: Map<Seq<u8>, R> = Map::empty();
        let table = RoutingTable {
            tables,
            keys: Ghost(keys),
            parents: Ghost(parents),
            routes: Ghost(routes),
        };
        proof {
            assert forall|t: int, s: int|
                0 <= t < table.tables@.len() && 0 <= s < 128 implies #[trigger] Self::slot_fine(
                table.tables@,
                table.keys@,
                table.routes@,
                t,
                s,
            ) by {
                assert(table.tables@[t][s] is NotFound);
            }
        }
        table
    }

    /// Whether slot `s` of table `t` is one that the walk along `p` has
    /// already passed, `i` positions in.
    spec fn on_walk(keys: Seq<Seq<u8>>, walk: Seq<int>, p: Seq<u8>, i: int, t: int, s: int) -> bool {
        let d = keys[t].len() as int;
        d < i && walk[d] == t && p[d] == s
    }

    /// What a slot that the walk has passed says about the routes before the
    /// insertion.
    spec fn walk_slot_ok(
        node: TablePointer<R>,
        k: Seq<u8>,
        next: int,
        keys: Seq<Seq<u8>>,
        routes: Map<Seq<u8>, R>,
    ) -> bool {
        match node {
            TablePointer::Link(c) => c == next && !routes.dom().contains(k) && c < keys.len()
                && keys[c as int] == k,
            TablePointer::RouteWithLink(c, r) => c == next && routes.dom().contains(k) && routes[k]
                == r && c < keys.len() && keys[c as int] == k,
            _ => false,
        }
    }

    spec fn walk_step_ok(
        tables: Seq<[TablePointer<R>; 128]>,
        keys: Seq<Seq<u8>>,
        routes: Map<Seq<u8>, R>,
        walk: Seq<int>,
        p: Seq<u8>,
        j: int,
    ) -> bool {
        Self::walk_slot_ok(tables[walk[j]][p[j] as int], p.take(j + 1), walk[j + 1], keys, routes)
    }

    /// The state of an insertion that has walked `i` positions along `p`.
    spec fn walking(
        tables: Seq<[TablePointer<R>; 128]>,
        keys: Seq<Seq<u8>>,
        parents: Seq<int>,
        routes: Map<Seq<u8>, R>,
        walk: Seq<int>,
        p: Seq<u8>,
        i: int,
    ) -> bool {
        &&& Self::shape_ok(tables, keys, parents)
        &&& 0 <= i < p.len()
        &&& walk.len() == i + 1
        &&& forall|j: int| 0 <= j < p.len() ==> #[trigger] p[j] < 128
        &&& forall|j: int|
            0 <= j <= i ==> 0 <= #[trigger] walk[j] < tables.len() && keys[walk[j]] == p.take(j)
        &&& forall|j: int|
            0 <= j < i ==> #[trigger] Self::walk_step_ok(tables, keys, routes, walk, p, j)
        &&& forall|t: int, s: int|
            0 <= t < tables.len() && 0 <= s < 128 && !Self::on_walk(keys, walk, p, i, t, s)
                ==> #[trigger] Self::slot_fine(tables, keys, routes, t, s)
    }

    /// No table is reached by `k` while the slot that `k` selects links nowhere.
    proof fn lemma_key_unused(
        tables: Seq<[TablePointer<R>; 128]>,
        keys: Seq<Seq<u8>>,
        parents: Seq<int>,
        t: int,
        ch: int,
    )
        requires
            Self::shape_ok(tables, keys, parents),
            0 <= t < tables.len(),
            0 <= ch < 128,
            tables[t][ch] is NotFound || tables[t][ch] is Route,
        ensures
            forall|a: int| 0 <= a < keys.len() ==> #[trigger] keys[a] != keys[t].push(ch as u8),
    {
        let k = keys[t].push(ch as u8);
        assert forall|a: int| 0 <= a < keys.len() implies #[trigger] keys[a] != k by {
            if keys[a] == k {
                assert(a >= 1);
                assert(Self::child_ok(tables, keys, parents, a));
                let pa = parents[a];
                assert(k.drop_last() =~= keys[t]);
                assert(keys[pa] == keys[t]);
                if pa < t {
                    assert(keys[pa] != keys[t]);
                }
                if t < pa {
                    assert(keys[t] != keys[pa]);
                }
                assert(pa == t);
                assert(k.last() == ch);
            }
        }
    }

    /// A slot whose class sequence is a prefix of `p` lies on the walk along `p`.
    proof fn lemma_prefix_on_walk(
        tables: Seq<[TablePointer<R>; 128]>,
        keys: Seq<Seq<u8>>,
        parents: Seq<int>,
        routes: Map<Seq<u8>, R>,
        walk: Seq<int>,
        p: Seq<u8>,
        i: int,
        t: int,
        s: int,
    )
        requires
            Self::walking(tables, keys, parents, routes, walk, p, i),
            0 <= t < tables.len(),
            0 <= s < 128,
            keys[t].len() < p.len(),
            p.take(keys[t].len() as int + 1) =~= keys[t].push(s as u8),
            keys[t].len() <= i,
        ensures
            walk[keys[t].len() as int] == t,
            p[keys[t].len() as int] == s,
    {
        let d = keys[t].len() as int;
        let k = keys[t].push(s as u8);
        assert(p.take(d + 1)[d] == k[d]);
        assert(p.take(d) =~= p.take(d + 1).drop_last());
        assert(k.drop_last() =~= keys[t]);
        let w = walk[d];
        assert(keys[w] == p.take(d));
        if w < t {
            assert(keys[w] != keys[t]);
        }
        if t < w {
            assert(keys[t] != keys[w]);
        }
    }

    /// One more position walked through a slot that already links on.
    proof fn lemma_step(
        tables: Seq<[TablePointer<R>; 128]>,
        keys: Seq<Seq<u8>>,
        parents: Seq<int>,
        routes: Map<Seq<u8>, R>,
        walk: Seq<int>,
        p: Seq<u8>,
        i: int,
        next: int,
    )
        requires
            Self::walking(tables, keys, parents, routes, walk, p, i),
            i + 1 < p.len(),
            Self::links_to(tables[walk[i]][p[i] as int], next),
        ensures
            Self::walking(tables, keys, parents, routes, walk.push(next), p, i + 1),
    {
        let t = walk[i];
        let ch = p[i] as int;
        let k = p.take(i + 1);
        let walk2 = walk.push(next);
        assert(keys[t].push(ch as u8) =~= k);
        assert(!Self::on_walk(keys, walk, p, i, t, ch));
        assert(Self::slot_fine(tables, keys, routes, t, ch));
        assert forall|j: int| 0 <= j <= i + 1 implies 0 <= #[trigger] walk2[j] < tables.len()
            && keys[walk2[j]] == p.take(j) by {
            if j <= i {
                assert(walk2[j] == walk[j]);
            }
        }
        assert forall|j: int| 0 <= j < i + 1 implies #[trigger] Self::walk_step_ok(
            tables,
            keys,
            routes,
            walk2,
            p,
            j,
        ) by {
            if j < i {
                assert(Self::walk_step_ok(tables, keys, routes, walk, p, j));
                assert(walk2[j] == walk[j]);
                assert(walk2[j + 1] == walk[j + 1]);
            }
        }
        assert forall|a: int, b: int|
            0 <= a < tables.len() && 0 <= b < 128 && !Self::on_walk(
                keys,
                walk2,
                p,
                i + 1,
                a,
                b,
            ) implies #[trigger] Self::slot_fine(tables, keys, routes, a, b) by {
            if Self::on_walk(keys, walk, p, i, a, b) {
                assert(walk2[keys[a].len() as int] == walk[keys[a].len() as int]);
            }
        }
    }

    /// One more position walked through a slot that linked nowhere: a fresh
    /// table was appended and the slot made to link to it.
    proof fn lemma_grown(
        tables0: Seq<[TablePointer<R>; 128]>,
        keys0: Seq<Seq<u8>>,
        parents0: Seq<int>,
        routes: Map<Seq<u8>, R>,
        walk: Seq<int>,
        p: Seq<u8>,
        i: int,
        tables1: Seq<[TablePointer<R>; 128]>,
    )
        requires
            Self::walking(tables0, keys0, parents0, routes, walk, p, i),
            i + 1 < p.len(),
            tables1.len() == tables0.len() + 1,
            forall|b: int| 0 <= b < 128 ==> #[trigger] tables1[tables0.len() as int][b] is NotFound,
            forall|a: int, b: int|
                0 <= a < tables0.len() && 0 <= b < 128 && (a != walk[i] || b != p[i])
                    ==> #[trigger] tables1[a][b] == tables0[a][b],
            match tables0[walk[i]][p[i] as int] {
                TablePointer::NotFound => tables1[walk[i]][p[i] as int] == TablePointer::<R>::Link(
                    tables0.len() as usize,
                ),
                TablePointer::Route(r) => tables1[walk[i]][p[i] as int]
                    == TablePointer::RouteWithLink(tables0.len() as usize, r),
                _ => false,
            },
            tables0.len() < usize::MAX,
        ensures
            Self::walking(
                tables1,
                keys0.push(p.take(i + 1)),
                parents0.push(walk[i]),
                routes,
                walk.push(tables0.len() as int),
                p,
                i + 1,
            ),
    {
        let t = walk[i];
        let ch = p[i] as int;
        let k = p.take(i + 1);
        let fresh = tables0.len() as int;
        let keys1 = keys0.push(k);
        let parents1 = parents0.push(t);
        let walk2 = walk.push(fresh);
        let node0 = tables0[t][ch];
        assert(keys0[t].push(ch as u8) =~= k);
        assert(!Self::on_walk(keys0, walk, p, i, t, ch));
        assert(Self::slot_fine(tables0, keys0, routes, t, ch));
        Self::lemma_key_unused(tables0, keys0, parents0, t, ch);
        assert(k.take(k.len() as int) =~= k);
        assert(!(node0 is NotFound) || !routes.dom().contains(k));

        assert forall|a: int, b: int| 0 <= a < b < keys1.len() implies #[trigger] keys1[a]
            != #[trigger] keys1[b] by {
            if b < fresh {
                assert(keys0[a] != keys0[b]);
            } else {
                assert(keys0[a] != k);
            }
        }
        assert forall|a: int| 1 <= a < keys1.len() implies #[trigger] Self::child_ok(
            tables1,
            keys1,
            parents1,
            a,
        ) by {
            if a < fresh {
                assert(Self::child_ok(tables0, keys0, parents0, a));
                let pa = parents0[a];
                let last = keys0[a].last() as int;
                assert(pa != t || last != ch);
                assert(tables1[pa][last] == tables0[pa][last]);
            } else {
                assert(k.drop_last() =~= keys0[t]);
                assert(k.last() == ch);
            }
        }
        assert(Self::shape_ok(tables1, keys1, parents1));

        assert forall|j: int| 0 <= j <= i + 1 implies 0 <= #[trigger] walk2[j] < tables1.len()
            && keys1[walk2[j]] == p.take(j) by {
            if j <= i {
                assert(walk2[j] == walk[j]);
            }
        }
        assert forall|j: int| 0 <= j < i + 1 implies #[trigger] Self::walk_step_ok(
            tables1,
            keys1,
            routes,
            walk2,
            p,
            j,
        ) by {
            if j < i {
                assert(Self::walk_step_ok(tables0, keys0, routes, walk, p, j));
                assert(walk2[j] == walk[j]);
                assert(walk2[j + 1] == walk[j + 1]);
                assert(keys0[walk[j]].len() == j);
                assert(walk[j] != t);
                assert(tables1[walk[j]][p[j] as int] == tables0[walk[j]][p[j] as int]);
            } else {
                assert(walk2[j] == t);
                assert(walk2[j + 1] == fresh);
            }
        }
        assert forall|a: int, b: int|
            0 <= a < tables1.len() && 0 <= b < 128 && !Self::on_walk(
                keys1,
                walk2,
                p,
                i + 1,
                a,
                b,
            ) implies #[trigger] Self::slot_fine(tables1, keys1, routes, a, b) by {
            if a == fresh {
                let kb = k.push(b as u8);
                assert(tables1[a][b] is NotFound);
                assert forall|q: Seq<u8>| #[trigger]
                    routes.dom().contains(q) && kb.len() <= q.len() implies !(q.take(
                    kb.len() as int,
                ) =~= kb) by {
                    if q.take(kb.len() as int) =~= kb {
                        assert(q.take(k.len() as int) =~= kb.take(k.len() as int));
                        assert(kb.take(k.len() as int) =~= k);
                        assert(longer_route(routes, k, q));
                    }
                }
            } else {
                if a == t && b == ch {
                    assert(walk2[i] == t);
                    assert(Self::on_walk(keys1, walk2, p, i + 1, a, b));
                }
                if Self::on_walk(keys0, walk, p, i, a, b) {
                    assert(walk2[keys0[a].len() as int] == walk[keys0[a].len() as int]);
                }
                assert(Self::slot_fine(tables0, keys0, routes, a, b));
                assert(tables1[a][b] == tables0[a][b]);
                assert(keys1[a] == keys0[a]);
            }
        }
    }

    /// The last slot of the walk was given the route: the tables now say
    /// what the routes with the new path say.
    proof fn lemma_finished(
        tables0: Seq<[TablePointer<R>; 128]>,
        keys: Seq<Seq<u8>>,
        parents: Seq<int>,
        routes: Map<Seq<u8>, R>,
        walk: Seq<int>,
        p: Seq<u8>,
        route: R,
        tables1: Seq<[TablePointer<R>; 128]>,
    )
        requires
            Self::walking(tables0, keys, parents, routes, walk, p, p.len() - 1),
            !routes.dom().contains(p),
            tables1.len() == tables0.len(),
            forall|a: int, b: int|
                0 <= a < tables0.len() && 0 <= b < 128 && (a != walk[p.len() - 1] || b
                    != p[p.len() - 1]) ==> #[trigger] tables1[a][b] == tables0[a][b],
            match tables0[walk[p.len() - 1]][p[p.len() - 1] as int] {
                TablePointer::NotFound => tables1[walk[p.len() - 1]][p[p.len() - 1] as int]
                    == TablePointer::Route(route),
                TablePointer::Link(c) => tables1[walk[p.len() - 1]][p[p.len() - 1] as int]
                    == TablePointer::RouteWithLink(c, route),
                _ => false,
            },
        ensures
            Self::shape_ok(tables1, keys, parents),
            forall|t: int, s: int|
                0 <= t < tables1.len() && 0 <= s < 128 ==> #[trigger] Self::slot_fine(
                    tables1,
                    keys,
                    routes.insert(p, route),
                    t,
                    s,
                ),
    {
        let i = p.len() - 1;
        let t = walk[i];
        let ch = p[i] as int;
        let after = routes.insert(p, route);
        let node0 = tables0[t][ch];
        assert(p.take(p.len() as int) =~= p);
        assert(keys[t].push(ch as u8) =~= p);
        assert(!Self::on_walk(keys, walk, p, i, t, ch));
        assert(Self::slot_fine(tables0, keys, routes, t, ch));

        assert forall|a: int| 1 <= a < keys.len() implies #[trigger] Self::child_ok(
            tables1,
            keys,
            parents,
            a,
        ) by {
            assert(Self::child_ok(tables0, keys, parents, a));
        }

        assert forall|a: int, b: int|
            0 <= a < tables1.len() && 0 <= b < 128 implies #[trigger] Self::slot_fine(
            tables1,
            keys,
            after,
            a,
            b,
        ) by {
            let kk = keys[a].push(b as u8);
            let d = keys[a].len() as int;
            if Self::on_walk(keys, walk, p, i, a, b) {
                assert(Self::walk_step_ok(tables0, keys, routes, walk, p, d));
                assert(a != t);
                assert(tables1[a][b] == tables0[a][b]);
                assert(keys[a] == p.take(d));
                assert(kk =~= p.take(d + 1));
                assert(longer_route(after, kk, p));
            } else if a == t && b == ch {
                match node0 {
                    TablePointer::NotFound => {
                        assert forall|q: Seq<u8>| !longer_route(after, p, q) by {
                            if longer_route(after, p, q) {
                                assert(routes.dom().contains(q));
                            }
                        }
                    },
                    TablePointer::Link(c) => {
                        let q = choose|q: Seq<u8>| longer_route(routes, p, q);
                        assert(longer_route(after, p, q));
                    },
                    _ => {},
                }
            } else {
                assert(Self::slot_fine(tables0, keys, routes, a, b));
                assert(tables1[a][b] == tables0[a][b]);
                if kk.len() <= p.len() && p.take(kk.len() as int) =~= kk {
                    Self::lemma_prefix_on_walk(tables0, keys, parents, routes, walk, p, i, a, b);
                    assert(false);
                }
                match tables1[a][b] {
                    TablePointer::NotFound => {},
                    TablePointer::Route(r) => {
                        assert(p.take(kk.len() as int) =~= p || kk != p);
                        assert forall|q: Seq<u8>| !longer_route(after, kk, q) by {
                            if longer_route(after, kk, q) {
                                assert(longer_route(routes, kk, q));
                            }
                        }
                    },
                    TablePointer::Link(c) => {
                        let q = choose|q: Seq<u8>| longer_route(routes, kk, q);
                        assert(longer_route(after, kk, q));
                    },
                    TablePointer::RouteWithLink(c, r) => {
                        let q = choose|q: Seq<u8>| longer_route(routes, kk, q);
                        assert(longer_route(after, kk, q));
                    },
                }
            }
        }
    }

    /// Registers `route` for `path`. The path must not be empty, and no route
    /// may be registered yet for its class sequence: a second registration of
    /// one path is a mistake in the configuration, not a request to handle.
    pub fn insert(&mut self, path: &str, route: R)
        requires
            old(self).wf(),
            path.spec_bytes().len() > 0,
            !old(self)@.dom().contains(classes(path.spec_bytes())),
        ensures
            final(self).wf(),
            final(self)@ == old(self)@.insert(classes(path.spec_bytes()), route),
    {
        let bytes = path.as_bytes();
        let n = bytes.len();
        let ghost p = classes(bytes@);
        let ghost m0 = self.routes@;
        let ghost mut walk: Seq<int> = seq![0int];
        let mut index: usize = 0;
        let mut i: usize = 0;
        proof {
            assert(p.take(0) =~= self.keys@[0]);
        }
        while i < n - 1
            invariant
                n == bytes@.len(),
                p == classes(bytes@),
                self.routes@ == m0,
                !m0.dom().contains(p),
                forall|q: Seq<u8>| #[trigger] m0.dom().contains(q) ==> q.len() > 0,
                Self::walking(self.tables@, self.keys@, self.parents@, m0, walk, p, i as int),
                index == walk[i as int],
            decreases n - 1 - i,
        {
            let ch: usize = (bytes[i] % 128) as usize;
            let ghost k = p.take(i + 1);
            let ghost tables0 = self.tables@;
            let ghost keys0 = self.keys@;
            let ghost parents0 = self.parents@;
            proof {
                assert(p[i as int] == ch);
                assert(keys0[index as int].push(ch as u8) =~= k);
                assert(!Self::on_walk(keys0, walk, p, i as int, index as int, ch as int));
                assert(Self::slot_fine(tables0, keys0, m0, index as int, ch as int));
            }
            let next: usize;
            match self.tables[index][ch] {
                TablePointer::Link(c) => {
                    next = c;
                    proof {
                        Self::lemma_step(tables0, keys0, parents0, m0, walk, p, i as int, c as int);
                    }
                },
                TablePointer::RouteWithLink(c, _) => {
                    next = c;
                    proof {
                        Self::lemma_step(tables0, keys0, parents0, m0, walk, p, i as int, c as int);
                    }
                },
                TablePointer::NotFound => {
                    next = self.tables.len();
                    self.tables.push(empty_table());
                    self.tables[index][ch] = TablePointer::Link(next);
                    self.keys = Ghost(keys0.push(k));
                    self.parents = Ghost(parents0.push(index as int));
                    proof {
                        assert(self.tables.len() <= usize::MAX);
                        Self::lemma_grown(
                            tables0,
                            keys0,
                            parents0,
                            m0,
                            walk,
                            p,
                            i as int,
                            self.tables@,
                        );
                    }
                },
                TablePointer::Route(r) => {
                    next = self.tables.len();
                    self.tables.push(empty_table());
                    self.tables[index][ch] = TablePointer::RouteWithLink(next, r);
                    self.keys = Ghost(keys0.push(k));
                    self.parents = Ghost(parents0.push(index as int));
                    proof {
                        assert(self.tables.len() <= usize::MAX);
                        Self::lemma_grown(
                            tables0,
                            keys0,
                            parents0,
                            m0,
                            walk,
                            p,
                            i as int,
                            self.tables@,
                        );
                    }
                },
            }
            proof {
                walk = walk.push(next as int);
            }
            index = next;
            i += 1;
        }
        let ch: usize = (bytes[i] % 128) as usize;
        let ghost tables0 = self.tables@;
        proof {
            assert(p[i as int] == ch);
            assert(p.take(n as int) =~= p);
            assert(self.keys@[index as int].push(ch as u8) =~= p);
            assert(!Self::on_walk(self.keys@, walk, p, i as int, index as int, ch as int));
            assert(Self::slot_fine(tables0, self.keys@, m0, index as int, ch as int));
        }
        match self.tables[index][ch] {
            TablePointer::NotFound => {
                self.tables[index][ch] = TablePointer::Route(route);
            },
            TablePointer::Link(c) => {
                self.tables[index][ch] = TablePointer::RouteWithLink(c, route);
            },
            _ => {
                proof {
                    assert(false);
                }
            },
        }
        self.routes = Ghost(m0.insert(p, route));
        proof {
            assert forall|q: Seq<u8>| #[trigger]
                self.routes@.dom().contains(q) implies q.len() > 0 by {
                if q != p {
                    assert(m0.dom().contains(q));
                }
            }
            Self::lemma_finished(
                tables0,
                self.keys@,
                self.parents@,
                m0,
                walk,
                p,
                route,
                self.tables@,
            );
        }
    }

    /// Whether a route is registered for the class sequence of `path`.
    pub fn contains(&self, path: &str) -> (found: bool)
        requires
            self.wf(),
        ensures
            found == self@.dom().contains(classes(path.spec_bytes())),
    {
        let bytes = path.as_bytes();
        let ghost c = classes(bytes@);
        let mut table: usize = 0;
        let mut i: usize = 0;
        assert(c.take(0) =~= self.keys@[0]);
        while i < bytes.len()
            invariant
                self.wf(),
                bytes@ == path.spec_bytes(),
                c == classes(bytes@),
                i <= bytes@.len(),
                i == bytes@.len() ==> bytes@.len() == 0,
                table < self.tables@.len(),
                self.keys@[table as int] == c.take(i as int),
            decreases bytes@.len() - i,
        {
            let ch: usize = (bytes[i] % 128) as usize;
            let last = i == bytes.len() - 1;
            let ghost k = c.take(i + 1);
            proof {
                assert(c[i as int] == ch);
                assert(self.keys@[table as int].push(ch as u8) =~= k);
                assert(Self::slot_fine(
                    self.tables@,
                    self.keys@,
                    self.routes@,
                    table as int,
                    ch as int,
                ));
                assert(c.take(k.len() as int) =~= k);
                if last {
                    assert(k =~= c);
                } else if self.routes@.dom().contains(c) {
                    assert(longer_route(self.routes@, k, c));
                }
            }
            match self.tables[table][ch] {
                TablePointer::NotFound => {
                    return false;
                },
                TablePointer::Link(next) => {
                    if last {
                        return false;
                    }
                    table = next;
                },
                TablePointer::RouteWithLink(next, _) => {
                    if last {
                        return true;
                    }
                    table = next;
                },
                TablePointer::Route(_) => {
                    return last;
                },
            }
            i += 1;
        }
        false
    }

    /// Registers `route` for `path`, if the table can take it: the path is
    /// not empty and has no route yet. Otherwise the table stays as it is.
    pub fn try_insert(&mut self, path: &str, route: R) -> (res: Result<(), ConfigurationConflict>)
        requires
            old(self).wf(),
        ensures
            final(self).wf(),
            res is Ok <==> path.spec_bytes().len() > 0 && !old(self)@.dom().contains(
                classes(path.spec_bytes()),
            ),
            res is Ok ==> final(self)@ == old(self)@.insert(classes(path.spec_bytes()), route),
            res is Err ==> final(self)@ == old(self)@,
    {
        if path.as_bytes().len() == 0 {
            return Err(ConfigurationConflict);
        }
        if self.contains(path) {
            return Err(ConfigurationConflict);
        }
        self.insert(path, route);
        Ok(())
    }

    /// Looks the bytes of a path up. The walk takes one slot per byte. It
    /// ends with the route at the first slot where a route ends and no longer
    /// registered path goes on, or where a route ends and the input ends too.
    /// The second part of the result is the number of bytes consumed: the
    /// rest of the path starts there.
    pub fn match_bytes(&self, path: &[u8]) -> (res: Result<(R, usize), NoMatchingRoute>)
        requires
            self.wf(),
        ensures
            match res {
                Ok((route, n)) => matched(self@, path@) == Some((route, n as int)),
                Err(_) => matched(self@, path@) is None,
            },
    {
        let ghost c = classes(path@);
        let mut table: usize = 0;
        let mut i: usize = 0;
        assert(c.take(0) =~= self.keys@[0]);
        while i < path.len()
            invariant
                self.wf(),
                c == classes(path@),
                i <= path@.len(),
                table < self.tables@.len(),
                self.keys@[table as int] == c.take(i as int),
                forall|n: int| 1 <= n <= i ==> !#[trigger] stops_at(self.routes@, c, n),
            decreases path@.len() - i,
        {
            let ch: usize = (path[i] % 128) as usize;
            let ghost k = c.take(i + 1);
            proof {
                assert(c[i as int] == ch);
                assert(self.keys@[table as int].push(ch as u8) =~= k);
                assert(Self::slot_fine(
                    self.tables@,
                    self.keys@,
                    self.routes@,
                    table as int,
                    ch as int,
                ));
            }
            match self.tables[table][ch] {
                TablePointer::NotFound => {
                    proof {
                        assert forall|n: int| !stops_at(self.routes@, c, n) by {
                            if i < n <= c.len() {
                                assert(c.take(n).take(k.len() as int) =~= k);
                            }
                        }
                    }
                    return Err(NoMatchingRoute);
                },
                TablePointer::Link(next) => {
                    table = next;
                    i += 1;
                },
                TablePointer::RouteWithLink(next, route) => {
                    if i == path.len() - 1 {
                        proof {
                            assert(stops_at(self.routes@, c, i + 1));
                            lemma_matched_at(self.routes@, path@, i + 1);
                        }
                        return Ok((route, i + 1));
                    }
                    table = next;
                    i += 1;
                },
                TablePointer::Route(route) => {
                    proof {
                        assert(stops_at(self.routes@, c, i + 1));
                        lemma_matched_at(self.routes@, path@, i + 1);
                    }
                    return Ok((route, i + 1));
                },
            }
        }
        proof {
            assert forall|n: int| !stops_at(self.routes@, c, n) by {}
        }
        Err(NoMatchingRoute)
    }

    /// Looks a path up and hands back the route with the rest of the path.
    /// A route registered at `/login` also matches `/login/x`, with `/x` left
    /// over, and `/loginX`, with `X` left over: no separator is asked for.
    pub fn match_path<'a>(&self, path: &'a str) -> (res: RouteMatch<'a, R>)
        requires
            self.wf(),
        ensures
            match res {
                Ok((route, rest)) => {
                    &&& matched_text(self@, path.spec_bytes()) == Some(
                        (route, path.spec_bytes().len() - rest.spec_bytes().len()),
                    )
                    &&& rest.spec_bytes() =~= path.spec_bytes().skip(
                        path.spec_bytes().len() - rest.spec_bytes().len(),
                    )
                },
                Err(_) => matched_text(self@, path.spec_bytes()) is None,
            },
    {
        match self.match_bytes(path.as_bytes()) {
            Ok((route, n)) => {
                if path.is_char_boundary(n) {
                    let (_, rest) = path.split_at(n);
                    Ok((route, rest))
                } else {
                    Err(NoMatchingRoute)
                }
            },
            Err(e) => Err(e),
        }
    }
}

impl<R: Copy> Clone for RoutingTable<R> {
    fn clone(&self) -> (copy: RoutingTable<R>)
        ensures
            copy@ == self@,
            copy.wf() == self.wf(),
    {
        let mut tables: Vec<[TablePointer<R>; 128]> = Vec::new();
        let mut i: usize = 0;
        while i < self.tables.len()
            invariant
                i <= self.tables@.len(),
                tables@ == self.tables@.take(i as int),
            decreases self.tables@.len() - i,
        {
            tables.push(self.tables[i]);
            proof {
                assert(tables@ =~= self.tables@.take(i + 1));
            }
            i += 1;
        }
        proof {
            assert(tables@ =~= self.tables@);
        }
        let copy = RoutingTable {
            tables,
            keys: Ghost(self.keys@),
            parents: Ghost(self.parents@),
            routes: Ghost(self.routes@),
        };
        proof {
            assert(copy.tables@ == self.tables@);
            assert(copy.keys@ == self.keys@);
            assert(copy.parents@ == self.parents@);
            assert(copy.routes@ == self.routes@);
        }
        copy
    }
}

} // verus!
