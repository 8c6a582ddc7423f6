//! The router: static routes that a path must equal, and dynamic routes whose
//! patterns bind path variables, tried in the order of their registration.

use vstd::prelude::*;
use crate::assoc::{as_map, entered, has_key, keys_distinct, lemma_put, lemma_slot, put, slot};
use crate::bytes::{equal, is_alphanumeric, pieces, split, to_vec, views, COLON, SLASH};
use crate::fields::{Entry, Fields};
use crate::request::HTTPMethod;

verus! {

/// One segment of a compiled pattern.
#[derive(Debug)]
pub enum Segment {
    /// Matches the segment that equals it.
    Literal(Vec<u8>),
    /// Matches any alphanumeric segment, and binds it to this name.
    Variable(Vec<u8>),
}

/// A `Segment` as a mathematical value.
pub ghost enum SegmentView {
    Literal(Seq<u8>),
    Variable(Seq<u8>),
}

impl View for Segment {
    type V = SegmentView;

    open spec fn view(&self) -> SegmentView {
        match self {
            Segment::Literal(text) => SegmentView::Literal(text@),
            Segment::Variable(name) => SegmentView::Variable(name@),
        }
    }
}

/// The segments of `v` as mathematical values, in order.
pub open spec fn segment_views(v: Seq<Segment>) -> Seq<SegmentView> {
    Seq::new(v.len(), |i: int| v[i]@)
}

/// Those of `parts` that are not empty, in order.
pub open spec fn nonempty(parts: Seq<Seq<u8>>) -> Seq<Seq<u8>>
    decreases parts.len(),
{
    if parts.len() == 0 {
        Seq::empty()
    } else if parts.last().len() == 0 {
        nonempty(parts.drop_last())
    } else {
        nonempty(parts.drop_last()).push(parts.last())
    }
}

/// The segments of a path or a pattern: what stands between its slashes,
/// empty parts left out.
pub open spec fn segments(path: Seq<u8>) -> Seq<Seq<u8>> {
    nonempty(pieces(path, SLASH))
}

/// Whether a segment of a pattern is a variable: it starts with a colon.
pub open spec fn is_variable(part: Seq<u8>) -> bool {
    part.len() > 0 && part[0] == COLON
}

/// What a segment of a pattern compiles to. A variable's name is what
/// follows the colon.
pub open spec fn segment_of(part: Seq<u8>) -> SegmentView {
    if is_variable(part) {
        SegmentView::Variable(part.drop_first())
    } else {
        SegmentView::Literal(part)
    }
}

/// What the given segments of a pattern compile to.
pub open spec fn compiled_parts(parts: Seq<Seq<u8>>) -> Seq<SegmentView> {
    Seq::new(parts.len(), |i: int| segment_of(parts[i]))
}

/// What a pattern compiles to, segment by segment.
pub open spec fn compiled(pattern: Seq<u8>) -> Seq<SegmentView> {
    compiled_parts(segments(pattern))
}

/// Whether one of `parts` is a variable.
pub open spec fn has_variable(parts: Seq<Seq<u8>>) -> bool {
    exists|i: int| 0 <= i < parts.len() && is_variable(#[trigger] parts[i])
}

/// Whether a pattern is dynamic: one of its segments is a variable.
pub open spec fn is_dynamic(pattern: Seq<u8>) -> bool {
    has_variable(segments(pattern))
}

/// Whether `part` is made of one or more ASCII letters and digits.
pub open spec fn is_alphanumeric_word(part: Seq<u8>) -> bool {
    part.len() > 0 && forall|i: int| 0 <= i < part.len() ==> is_alphanumeric(#[trigger] part[i])
}

/// Whether a segment of a pattern accepts a segment of a path.
pub open spec fn segment_accepts(segment: SegmentView, part: Seq<u8>) -> bool {
    match segment {
        SegmentView::Literal(text) => part == text,
        SegmentView::Variable(_) => is_alphanumeric_word(part),
    }
}

/// Whether a compiled pattern accepts the segments of a path: there are as
/// many of the one as of the other, and each accepts its counterpart.
pub open spec fn accepts(pattern: Seq<SegmentView>, parts: Seq<Seq<u8>>) -> bool {
    &&& pattern.len() == parts.len()
    &&& forall|i: int| 0 <= i < pattern.len() ==> segment_accepts(#[trigger] pattern[i], parts[i])
}

/// The name of each variable of `pattern` with the segment of the path at
/// its position, in the order of the pattern.
pub open spec fn bindings(pattern: Seq<SegmentView>, parts: Seq<Seq<u8>>) -> Seq<Entry>
    decreases pattern.len(),
{
    if pattern.len() == 0 {
        Seq::empty()
    } else {
        let before = bindings(pattern.drop_last(), parts);
        match pattern.last() {
            SegmentView::Variable(name) => before.push((name, parts[pattern.len() - 1])),
            SegmentView::Literal(_) => before,
        }
    }
}

/// A dynamic route as a mathematical value.
pub ghost struct DynamicRouteView<H> {
    pub segments: Seq<SegmentView>,
    pub method: HTTPMethod,
    pub handler: H,
}

/// What a `Router` holds: the static routes, by pattern and method, and the
/// dynamic routes in the order of their registration.
pub ghost struct RouterView<H> {
    pub statics: Map<(Seq<u8>, HTTPMethod), H>,
    pub dynamics: Seq<DynamicRouteView<H>>,
}

/// What a lookup finds: the handler, and the values of the path variables.
pub ghost struct Resolved<H> {
    pub handler: H,
    pub path_variables: Map<Seq<u8>, Seq<u8>>,
}

/// Whether a dynamic route is for `method` and accepts the path segments `parts`.
pub open spec fn route_accepts<H>(
    route: DynamicRouteView<H>,
    parts: Seq<Seq<u8>>,
    method: HTTPMethod,
) -> bool {
    route.method == method && accepts(route.segments, parts)
}

/// Whether a dynamic route matches a request for `path` with `method`.
pub open spec fn route_matches<H>(
    route: DynamicRouteView<H>,
    path: Seq<u8>,
    method: HTTPMethod,
) -> bool {
    route_accepts(route, segments(path), method)
}

/// Whether the route at `i` is the first of `routes` that matches.
pub open spec fn is_first_match<H>(
    routes: Seq<DynamicRouteView<H>>,
    path: Seq<u8>,
    method: HTTPMethod,
    i: int,
) -> bool {
    &&& 0 <= i < routes.len()
    &&& route_matches(routes[i], path, method)
    &&& forall|j: int| 0 <= j < i ==> !route_matches(#[trigger] routes[j], path, method)
}

/// The index of the first of `routes` that matches, if any does.
pub open spec fn first_match<H>(
    routes: Seq<DynamicRouteView<H>>,
    path: Seq<u8>,
    method: HTTPMethod,
) -> Option<int> {
    if exists|i: int| is_first_match(routes, path, method, i) {
        Some(choose|i: int| is_first_match(routes, path, method, i))
    } else {
        None
    }
}

/// What a lookup of `path` with `method` finds in `router`: the static route
/// with this very path and method; else the first dynamic route that matches,
/// with the values of its variables; else nothing.
pub open spec fn resolve<H>(router: RouterView<H>, path: Seq<u8>, method: HTTPMethod) -> Option<
    Resolved<H>,
> {
    if router.statics.contains_key((path, method)) {
        Some(Resolved { handler: router.statics[(path, method)], path_variables: Map::empty() })
    } else {
        match first_match(router.dynamics, path, method) {
            Some(i) => Some(
                Resolved {
                    handler: router.dynamics[i].handler,
                    path_variables: entered(bindings(router.dynamics[i].segments, segments(path))),
                },
            ),
            None => None,
        }
    }
}

/// `router` after a route has been registered. A pattern without a variable
/// becomes a static route and replaces the one with the same pattern and
/// method; any other pattern is compiled and comes after the dynamic routes
/// registered before.
pub open spec fn registered<H>(
    router: RouterView<H>,
    pattern: Seq<u8>,
    handler: H,
    method: HTTPMethod,
) -> RouterView<H> {
    if is_dynamic(pattern) {
        RouterView {
            dynamics: router.dynamics.push(
                DynamicRouteView { segments: compiled(pattern), method, handler },
            ),
            ..router
        }
    } else {
        RouterView { statics: router.statics.insert((pattern, method), handler), ..router }
    }
}

/// The first match is the only index that `is_first_match` accepts.
pub proof fn lemma_first_match<H>(
    routes: Seq<DynamicRouteView<H>>,
    path: Seq<u8>,
    method: HTTPMethod,
    i: int,
)
    requires
        is_first_match(routes, path, method, i),
    ensures
        first_match(routes, path, method) == Some(i),
{
    let j = choose|j: int| is_first_match(routes, path, method, j);
    assert(is_first_match(routes, path, method, j));
    if j < i {
        assert(!route_matches(routes[j], path, method));
    } else if i < j {
        assert(!route_matches(routes[i], path, method));
    }
}

/// Splits a path or a pattern into its segments.
pub fn path_segments(path: &[u8]) -> (out: Vec<Vec<u8>>)
    ensures
        views(out@) == segments(path@),
{
    let parts = split(path, SLASH);
    let ghost all = views(parts@);
    let mut out: Vec<Vec<u8>> = Vec::new();
    let mut i: usize = 0;
    proof {
        assert(all.take(0) =~= Seq::<Seq<u8>>::empty());
        assert(views(out@) =~= Seq::<Seq<u8>>::empty());
    }
    while i < parts.len()
        invariant
            i <= parts.len(),
            all == views(parts@),
            views(out@) == nonempty(all.take(i as int)),
        decreases parts.len() - i,
    {
        proof {
            assert(all.take(i + 1).drop_last() =~= all.take(i as int));
            assert(all.take(i + 1).last() == parts@[i as int]@);
        }
        if parts[i].len() > 0 {
            let ghost before = views(out@);
            out.push(to_vec(parts[i].as_slice()));
            proof {
                assert(views(out@) =~= before.push(parts@[i as int]@));
            }
        }
        i += 1;
    }
    proof {
        assert(all.take(parts.len() as int) =~= all);
    }
    out
}

/// Whether one of the segments `parts` of a pattern is a variable.
pub fn any_variable(parts: &Vec<Vec<u8>>) -> (found: bool)
    ensures
        found == has_variable(views(parts@)),
{
    let mut i: usize = 0;
    while i < parts.len()
        invariant
            i <= parts.len(),
            forall|j: int| 0 <= j < i ==> !is_variable(#[trigger] views(parts@)[j]),
        decreases parts.len() - i,
    {
        if parts[i].len() > 0 && parts[i][0] == COLON {
            assert(is_variable(views(parts@)[i as int]));
            return true;
        }
        assert(!is_variable(views(parts@)[i as int]));
        i += 1;
    }
    false
}

/// Compiles the segments `parts` of a pattern.
pub fn compile(parts: &Vec<Vec<u8>>) -> (out: Vec<Segment>)
    ensures
        segment_views(out@) == compiled_parts(views(parts@)),
{
    let mut out: Vec<Segment> = Vec::new();
    let mut i: usize = 0;
    while i < parts.len()
        invariant
            i <= parts.len(),
            out@.len() == i,
            forall|j: int| 0 <= j < i ==> (#[trigger] out@[j])@ == segment_of(parts@[j]@),
        decreases parts.len() - i,
    {
        let part = parts[i].as_slice();
        if part.len() > 0 && part[0] == COLON {
            let name = to_vec(&part[1..part.len()]);
            proof {
                assert(name@ =~= part@.drop_first());
            }
            out.push(Segment::Variable(name));
        } else {
            out.push(Segment::Literal(to_vec(part)));
        }
        i += 1;
    }
    proof {
        assert(segment_views(out@) =~= compiled_parts(views(parts@)));
    }
    out
}

/// Whether `part` is made of one or more ASCII letters and digits.
pub fn alphanumeric_word(part: &[u8]) -> (yes: bool)
    ensures
        yes == is_alphanumeric_word(part@),
{
    if part.len() == 0 {
        return false;
    }
    let mut i: usize = 0;
    while i < part.len()
        invariant
            i <= part.len(),
            forall|j: int| 0 <= j < i ==> is_alphanumeric(#[trigger] part@[j]),
        decreases part.len() - i,
    {
        let b = part[i];
        let ok = (0x30 <= b && b <= 0x39) || (0x41 <= b && b <= 0x5a) || (0x61 <= b && b <= 0x7a);
        if !ok {
            assert(!is_alphanumeric(part@[i as int]));
            return false;
        }
        i += 1;
    }
    true
}

/// Whether the compiled pattern `pattern` accepts the path segments `parts`.
pub fn pattern_accepts(pattern: &Vec<Segment>, parts: &Vec<Vec<u8>>) -> (yes: bool)
    ensures
        yes == accepts(segment_views(pattern@), views(parts@)),
{
    if pattern.len() != parts.len() {
        return false;
    }
    let mut i: usize = 0;
    while i < pattern.len()
        invariant
            i <= pattern.len(),
            pattern.len() == parts.len(),
            forall|j: int|
                0 <= j < i ==> segment_accepts(
                    #[trigger] segment_views(pattern@)[j],
                    views(parts@)[j],
                ),
        decreases pattern.len() - i,
    {
        let ok = match &pattern[i] {
            Segment::Literal(text) => equal(parts[i].as_slice(), text.as_slice()),
            Segment::Variable(_) => alphanumeric_word(parts[i].as_slice()),
        };
        assert(ok == segment_accepts(segment_views(pattern@)[i as int], views(parts@)[i as int]));
        if !ok {
            return false;
        }
        i += 1;
    }
    true
}

/// Binds each variable of `pattern` to the segment of the path at its position.
pub fn bind(pattern: &Vec<Segment>, parts: &Vec<Vec<u8>>) -> (variables: Fields)
    requires
        pattern.len() == parts.len(),
    ensures
        variables@ == entered(bindings(segment_views(pattern@), views(parts@))),
{
    let ghost model = segment_views(pattern@);
    let mut variables = Fields::new();
    let mut i: usize = 0;
    proof {
        assert(model.take(0) =~= Seq::<SegmentView>::empty());
    }
    while i < pattern.len()
        invariant
            i <= pattern.len(),
            pattern.len() == parts.len(),
            model == segment_views(pattern@),
            variables@ == entered(bindings(model.take(i as int), views(parts@))),
        decreases pattern.len() - i,
    {
        proof {
            assert(model.take(i + 1).drop_last() =~= model.take(i as int));
            assert(model.take(i + 1).last() == pattern@[i as int]@);
        }
        match &pattern[i] {
            Segment::Variable(name) => {
                let ghost before = bindings(model.take(i as int), views(parts@));
                proof {
                    let pair = (name@, views(parts@)[i as int]);
                    assert(before.push(pair).drop_last() =~= before);
                    assert(bindings(model.take(i + 1), views(parts@)) == before.push(pair));
                }
                variables.insert(to_vec(name.as_slice()), to_vec(parts[i].as_slice()));
            },
            Segment::Literal(_) => {},
        }
        i += 1;
    }
    proof {
        assert(model.take(pattern.len() as int) =~= model);
    }
    variables
}

/// A route that a path must equal.
struct StaticRoute<H> {
    pattern: Vec<u8>,
    method: HTTPMethod,
    handler: H,
}

/// A route with a compiled pattern.
struct DynamicRoute<H> {
    segments: Vec<Segment>,
    method: HTTPMethod,
    handler: H,
}

/// The routes of a server. `H` is the type of the handlers; the router only
/// keeps them and hands them out.
pub struct Router<H> {
    statics: Vec<StaticRoute<H>>,
    dynamics: Vec<DynamicRoute<H>>,
}

/// What `get_route` finds: the handler, and the values of the path variables.
pub struct RouteDetails<'a, H> {
    pub handler: &'a H,
    pub path_variables: Fields,
}

/// The static routes of `v`, each as its pattern and method with its handler.
spec fn static_pairs<H>(v: Seq<StaticRoute<H>>) -> Seq<((Seq<u8>, HTTPMethod), H)> {
    Seq::new(v.len(), |i: int| ((v[i].pattern@, v[i].method), v[i].handler))
}

/// The dynamic routes of `v` as mathematical values, in order.
spec fn dynamic_views<H>(v: Seq<DynamicRoute<H>>) -> Seq<DynamicRouteView<H>> {
    Seq::new(
        v.len(),
        |i: int|
            DynamicRouteView {
                segments: segment_views(v[i].segments@),
                method: v[i].method,
                handler: v[i].handler,
            },
    )
}

impl<H> View for Router<H> {
    type V = RouterView<H>;

    closed spec fn view(&self) -> RouterView<H> {
        RouterView {
            statics: as_map(static_pairs(self.statics@)),
            dynamics: dynamic_views(self.dynamics@),
        }
    }
}

impl<H> Default for Router<H> {
    fn default() -> (router: Router<H>)
        ensures
            router@.statics == Map::<(Seq<u8>, HTTPMethod), H>::empty(),
            router@.dynamics == Seq::<DynamicRouteView<H>>::empty(),
    {
        Router::new()
    }
}

impl<H> Router<H> {
    /// No two static routes have the same pattern and method.
    #[verifier::type_invariant]
    closed spec fn well_formed(&self) -> bool {
        keys_distinct(static_pairs(self.statics@))
    }

    /// A router without routes.
    pub fn new() -> (router: Router<H>)
        ensures
            router@.statics == Map::<(Seq<u8>, HTTPMethod), H>::empty(),
            router@.dynamics == Seq::<DynamicRouteView<H>>::empty(),
    {
        let router = Router { statics: Vec::new(), dynamics: Vec::new() };
        proof {
            assert(router@.statics =~= Map::<(Seq<u8>, HTTPMethod), H>::empty());
            assert(router@.dynamics =~= Seq::<DynamicRouteView<H>>::empty());
        }
        router
    }

    /// Registers `handler` for requests with `method` whose path the pattern
    /// `route` matches. A segment of the pattern that starts with a colon is a
    /// variable.
    pub fn insert_route(&mut self, route: &[u8], handler: H, method: HTTPMethod)
        ensures
            final(self)@ == registered(old(self)@, route@, handler, method),
    {
        let parts = path_segments(route);
        if any_variable(&parts) {
            self.insert_dynamic_route(&parts, handler, method);
            proof {
                assert(final(self)@.dynamics =~= registered(
                    old(self)@,
                    route@,
                    handler,
                    method,
                ).dynamics);
            }
        } else {
            self.insert_static_route(route, handler, method);
        }
    }

    /// Registers a static route, in place of the one with the same pattern and
    /// method if there is one.
    fn insert_static_route(&mut self, route: &[u8], handler: H, method: HTTPMethod)
        ensures
            final(self)@.statics == old(self)@.statics.insert((route@, method), handler),
            final(self)@.dynamics == old(self)@.dynamics,
    {
        proof {
            use_type_invariant(&*self);
            lemma_put(static_pairs(self.statics@), (route@, method), handler);
        }
        let at = self.find_static(route, method);
        let ghost before = static_pairs(self.statics@);
        let mut statics: Vec<StaticRoute<H>> = Vec::new();
        std::mem::swap(&mut statics, &mut self.statics);
        let entry = StaticRoute { pattern: to_vec(route), method, handler };
        match at {
            Some(i) => {
                statics.set(i, entry);
                proof {
                    assert(static_pairs(statics@) =~= before.update(
                        i as int,
                        ((route@, method), handler),
                    ));
                }
            },
            None => {
                statics.push(entry);
                proof {
                    assert(static_pairs(statics@) =~= before.push(((route@, method), handler)));
                }
            },
        }
        proof {
            assert(static_pairs(statics@) == put(before, (route@, method), handler));
        }
        self.statics = statics;
    }

    /// Compiles the segments `parts` of a pattern and registers the route after
    /// those registered before.
    fn insert_dynamic_route(&mut self, parts: &Vec<Vec<u8>>, handler: H, method: HTTPMethod)
        ensures
            final(self)@.statics == old(self)@.statics,
            final(self)@.dynamics == old(self)@.dynamics.push(
                DynamicRouteView { segments: compiled_parts(views(parts@)), method, handler },
            ),
    {
        proof {
            use_type_invariant(&*self);
        }
        let segments = compile(parts);
        let ghost before = dynamic_views(self.dynamics@);
        let mut dynamics: Vec<DynamicRoute<H>> = Vec::new();
        std::mem::swap(&mut dynamics, &mut self.dynamics);
        dynamics.push(DynamicRoute { segments, method, handler });
        proof {
            assert(dynamic_views(dynamics@) =~= before.push(
                DynamicRouteView { segments: compiled_parts(views(parts@)), method, handler },
            ));
        }
        self.dynamics = dynamics;
    }

    /// Where the static route with this pattern and method stands, if there is one.
    fn find_static(&self, route: &[u8], method: HTTPMethod) -> (at: Option<usize>)
        ensures
            match at {
                Some(i) => i < self.statics@.len() && has_key(
                    static_pairs(self.statics@),
                    (route@, method),
                ) && slot(static_pairs(self.statics@), (route@, method)) == i
                    && self@.statics.contains_key((route@, method)) && self@.statics[(
                    route@,
                    method,
                )] == self.statics@[i as int].handler,
                None => !has_key(static_pairs(self.statics@), (route@, method))
                    && !self@.statics.contains_key((route@, method)),
            },
    {
        proof {
            use_type_invariant(self);
        }
        let ghost pairs = static_pairs(self.statics@);
        let mut i: usize = 0;
        while i < self.statics.len()
            invariant
                i <= self.statics.len(),
                pairs == static_pairs(self.statics@),
                keys_distinct(pairs),
                forall|j: int| 0 <= j < i ==> (#[trigger] pairs[j]).0 != (route@, method),
            decreases self.statics.len() - i,
        {
            if self.statics[i].method == method && equal(
                self.statics[i].pattern.as_slice(),
                route,
            ) {
                proof {
                    assert(pairs[i as int].0 == (route@, method));
                    lemma_slot(pairs, i as int);
                }
                return Some(i);
            }
            assert(pairs[i as int].0 != (route@, method));
            i += 1;
        }
        None
    }

    /// Where the first dynamic route that matches stands, if one does.
    fn get_dynamic_route(&self, parts: &Vec<Vec<u8>>, method: HTTPMethod) -> (at: Option<usize>)
        ensures
            self@.dynamics.len() == self.dynamics@.len(),
            match at {
                Some(i) => i < self.dynamics@.len() && self.dynamics@[i as int].segments@.len()
                    == parts@.len() && self@.dynamics[i as int].segments == segment_views(
                    self.dynamics@[i as int].segments@,
                ) && self@.dynamics[i as int].handler == self.dynamics@[i as int].handler
                    && route_accepts(self@.dynamics[i as int], views(parts@), method)
                    && forall|j: int|
                    0 <= j < i ==> !route_accepts(
                        #[trigger] self@.dynamics[j],
                        views(parts@),
                        method,
                    ),
                None => forall|j: int|
                    0 <= j < self@.dynamics.len() ==> !route_accepts(
                        #[trigger] self@.dynamics[j],
                        views(parts@),
                        method,
                    ),
            },
    {
        let ghost routes = self@.dynamics;
        let mut i: usize = 0;
        while i < self.dynamics.len()
            invariant
                i <= self.dynamics.len(),
                routes == self@.dynamics,
                routes.len() == self.dynamics@.len(),
                forall|j: int|
                    0 <= j < i ==> !route_accepts(#[trigger] routes[j], views(parts@), method),
            decreases self.dynamics.len() - i,
        {
            let route = &self.dynamics[i];
            assert(routes[i as int].segments == segment_views(route.segments@));
            assert(routes[i as int].method == route.method);
            if route.method == method && pattern_accepts(&route.segments, parts) {
                return Some(i);
            }
            i += 1;
        }
        None
    }

    /// Looks up the route for a request: the static route with this very path
    /// and method; else the first dynamic route whose method and pattern match,
    /// with its path variables bound; else nothing.
    pub fn get_route(&self, route: &[u8], method: &HTTPMethod) -> (found: Option<
        RouteDetails<'_, H>,
    >)
        ensures
            match found {
                Some(details) => resolve(self@, route@, *method) == Some(
                    Resolved {
                        handler: *details.handler,
                        path_variables: details.path_variables@,
                    },
                ),
                None => resolve(self@, route@, *method) is None,
            },
    {
        if let Some(i) = self.find_static(route, *method) {
            return Some(
                RouteDetails { handler: &self.statics[i].handler, path_variables: Fields::new() },
            );
        }
        let parts = path_segments(route);
        match self.get_dynamic_route(&parts, *method) {
            Some(i) => {
                proof {
                    assert(is_first_match(self@.dynamics, route@, *method, i as int));
                    lemma_first_match(self@.dynamics, route@, *method, i as int);
                }
                let found = &self.dynamics[i];
                let path_variables = bind(&found.segments, &parts);
                Some(RouteDetails { handler: &found.handler, path_variables })
            },
            None => {
                proof {
                    assert forall|j: int| !is_first_match(self@.dynamics, route@, *method, j) by {
                        if 0 <= j < self@.dynamics.len() {
                            assert(!route_matches(self@.dynamics[j], route@, *method));
                        }
                    }
                }
                None
            },
        }
    }
}

/// A static route is found under its own pattern and method, with no path
/// variable bound, whatever dynamic routes there are and whenever they were
/// registered.
pub proof fn lemma_static_route_found<H>(router: RouterView<H>, path: Seq<u8>, method: HTTPMethod)
    requires
        router.statics.contains_key((path, method)),
    ensures
        resolve(router, path, method) == Some(
            Resolved { handler: router.statics[(path, method)], path_variables: Map::empty() },
        ),
{
}

/// Registering a static route makes it the one found under its pattern and method.
pub proof fn lemma_static_route_registered<H>(
    router: RouterView<H>,
    pattern: Seq<u8>,
    handler: H,
    method: HTTPMethod,
)
    requires
        !is_dynamic(pattern),
    ensures
        resolve(registered(router, pattern, handler, method), pattern, method) == Some(
            Resolved { handler, path_variables: Map::empty() },
        ),
{
}

/// A path that is no static route for the method, and that no dynamic route
/// matches, is not found.
pub proof fn lemma_unregistered_path_not_found<H>(
    router: RouterView<H>,
    path: Seq<u8>,
    method: HTTPMethod,
)
    requires
        !router.statics.contains_key((path, method)),
        forall|i: int|
            0 <= i < router.dynamics.len() ==> !route_matches(
                #[trigger] router.dynamics[i],
                path,
                method,
            ),
    ensures
        resolve(router, path, method) is None,
{
    assert forall|i: int| !is_first_match(router.dynamics, path, method, i) by {
        if 0 <= i < router.dynamics.len() {
            assert(!route_matches(router.dynamics[i], path, method));
        }
    }
}

/// Among the dynamic routes that match, the one registered first wins: where
/// no static route stands in the way, a lookup finds the route at `i` if it
/// matches and none before it does, whatever matches after it.
pub proof fn lemma_first_registered_wins<H>(
    router: RouterView<H>,
    path: Seq<u8>,
    method: HTTPMethod,
    i: int,
)
    requires
        !router.statics.contains_key((path, method)),
        0 <= i < router.dynamics.len(),
        route_matches(router.dynamics[i], path, method),
        forall|k: int| 0 <= k < i ==> !route_matches(#[trigger] router.dynamics[k], path, method),
    ensures
        resolve(router, path, method) == Some(
            Resolved {
                handler: router.dynamics[i].handler,
                path_variables: entered(bindings(router.dynamics[i].segments, segments(path))),
            },
        ),
{
    lemma_first_match(router.dynamics, path, method, i);
}

/// A dynamic route registered later takes nothing from the routes before it:
/// what was found before its registration is found after it.
pub proof fn lemma_later_route_yields<H>(
    router: RouterView<H>,
    pattern: Seq<u8>,
    handler: H,
    route_method: HTTPMethod,
    path: Seq<u8>,
    method: HTTPMethod,
)
    requires
        is_dynamic(pattern),
        resolve(router, path, method) is Some,
    ensures
        resolve(registered(router, pattern, handler, route_method), path, method) == resolve(
            router,
            path,
            method,
        ),
{
    let after = registered(router, pattern, handler, route_method);
    if !router.statics.contains_key((path, method)) {
        let i = first_match(router.dynamics, path, method)->0;
        assert(is_first_match(router.dynamics, path, method, i));
        assert(after.dynamics[i] == router.dynamics[i]);
        assert forall|k: int| 0 <= k < i implies !route_matches(
            #[trigger] after.dynamics[k],
            path,
            method,
        ) by {
            assert(after.dynamics[k] == router.dynamics[k]);
        }
        lemma_first_match(after.dynamics, path, method, i);
    }
}

/// A variable is bound to the segment of the path at its position: the
/// variable at `i` has that segment as its value, unless a variable of the
/// same name follows it in the pattern.
pub proof fn lemma_variable_bound(
    pattern: Seq<SegmentView>,
    parts: Seq<Seq<u8>>,
    i: int,
    name: Seq<u8>,
)
    requires
        0 <= i < pattern.len(),
        pattern[i] == SegmentView::Variable(name),
        forall|j: int| i < j < pattern.len() ==> pattern[j] != SegmentView::Variable(name),
    ensures
        entered(bindings(pattern, parts)).contains_key(name),
        entered(bindings(pattern, parts))[name] == parts[i],
    decreases pattern.len(),
{
    let front = pattern.drop_last();
    let before = bindings(front, parts);
    if i == pattern.len() - 1 {
        assert(before.push((name, parts[i])).drop_last() =~= before);
    } else {
        lemma_variable_bound(front, parts, i, name);
        match pattern.last() {
            SegmentView::Variable(other) => {
                assert(pattern[pattern.len() - 1] != SegmentView::Variable(name));
                let pair = (other, parts[pattern.len() - 1]);
                assert(before.push(pair).drop_last() =~= before);
            },
            SegmentView::Literal(_) => {},
        }
    }
}

/// Nothing but the variables of the pattern is bound.
pub proof fn lemma_only_variables_bound(
    pattern: Seq<SegmentView>,
    parts: Seq<Seq<u8>>,
    name: Seq<u8>,
)
    requires
        entered(bindings(pattern, parts)).contains_key(name),
    ensures
        exists|i: int| 0 <= i < pattern.len() && #[trigger] pattern[i] == SegmentView::Variable(name),
    decreases pattern.len(),
{
    if pattern.len() > 0 {
        let front = pattern.drop_last();
        let before = bindings(front, parts);
        let last = pattern.len() - 1;
        match pattern.last() {
            SegmentView::Variable(other) => {
                let pair = (other, parts[last]);
                assert(before.push(pair).drop_last() =~= before);
                if other == name {
                    assert(pattern[last] == SegmentView::Variable(name));
                } else {
                    lemma_only_variables_bound(front, parts, name);
                    let i = choose|i: int|
                        0 <= i < front.len() && #[trigger] front[i] == SegmentView::Variable(name);
                    assert(pattern[i] == SegmentView::Variable(name));
                }
            },
            SegmentView::Literal(_) => {
                lemma_only_variables_bound(front, parts, name);
                let i = choose|i: int|
                    0 <= i < front.len() && #[trigger] front[i] == SegmentView::Variable(name);
                assert(pattern[i] == SegmentView::Variable(name));
            },
        }
    }
}

} // verus!
