//! The order in which modules are loaded and told of processes and threads.
use crate::bytes::invalid;
use crate::error::{agrees, AppResult, ReasonCode};
use crate::names::NameMap;
use crate::pe::modules::{normalize_module_name, normalized};
use crate::pe::types::{
    LifecycleEvent, LifecycleEventModel, LifecyclePlan, LifecyclePlanModel, LifecycleStage,
};
use crate::text::{joined, same_text};
use vstd::prelude::*;

verus! {

/// The modules that each module depends on.
pub type Graph = Map<Seq<char>, Vec<String>>;

/// The names of the modules that `module` depends on, in order.
pub open spec fn needed_by(graph: Graph, module: Seq<char>) -> Seq<Seq<char>> {
    if graph.contains_key(module) {
        graph[module].deep_view().map_values(|name: Seq<char>| normalized(name))
    } else {
        Seq::empty()
    }
}

/// The modules with dependencies that are not on the way from the root.
pub open spec fn open_modules(graph: Graph, path: Seq<Seq<char>>) -> nat {
    graph.dom().difference(path.to_set()).len()
}

proof fn lemma_open_modules(graph: Graph, path: Seq<Seq<char>>, module: Seq<char>)
    requires
        graph.dom().finite(),
        graph.contains_key(module),
        !path.contains(module),
    ensures
        open_modules(graph, path.push(module)) < open_modules(graph, path),
{
    let before = graph.dom().difference(path.to_set());
    let after = graph.dom().difference(path.push(module).to_set());
    assert(path.push(module).to_set() =~= path.to_set().insert(module)) by {
        assert forall|m: Seq<char>| path.push(module).to_set().contains(m) <==> #[trigger] path.to_set().insert(
            module,
        ).contains(m) by {
            if path.contains(m) {
                let i = choose|i: int| 0 <= i < path.len() && path[i] == m;
                assert(path.push(module)[i] == m);
            }
            if m == module {
                assert(path.push(module)[path.len() as int] == m);
            }
            if path.push(module).contains(m) {
                let i = choose|i: int| 0 <= i < path.push(module).len() && path.push(module)[i] == m;
                if i < path.len() {
                    assert(path[i] == m);
                }
            }
        }
    }
    assert(after =~= before.remove(module));
    assert(before.contains(module));
}

/// The load order after `module`, which is reached along `path`, and all that
/// it depends on have been added to `order`; nothing where a module depends on
/// itself.
pub open spec fn visited(
    graph: Graph,
    module: Seq<char>,
    path: Seq<Seq<char>>,
    order: Seq<Seq<char>>,
) -> Option<Seq<Seq<char>>>
    decreases open_modules(graph, path), 0nat,
    when graph.dom().finite()
    via visited_decreases
{
    if order.contains(module) {
        Some(order)
    } else if path.contains(module) {
        None
    } else if !graph.contains_key(module) {
        Some(order.push(module))
    } else {
        match visited_all(graph, needed_by(graph, module), 0, path.push(module), order) {
            None => None,
            Some(longer) => Some(longer.push(module)),
        }
    }
}

/// The load order after the modules of `list` from `index` on.
pub open spec fn visited_all(
    graph: Graph,
    list: Seq<Seq<char>>,
    index: int,
    path: Seq<Seq<char>>,
    order: Seq<Seq<char>>,
) -> Option<Seq<Seq<char>>>
    decreases open_modules(graph, path), (1 + list.len() - index) as nat,
    when graph.dom().finite() && 0 <= index <= list.len()
    via visited_all_decreases
{
    if index >= list.len() {
        Some(order)
    } else {
        match visited(graph, list[index], path, order) {
            None => None,
            Some(longer) => visited_all(graph, list, index + 1, path, longer),
        }
    }
}

#[via_fn]
proof fn visited_decreases(
    graph: Graph,
    module: Seq<char>,
    path: Seq<Seq<char>>,
    order: Seq<Seq<char>>,
) {
    if !order.contains(module) && !path.contains(module) && graph.contains_key(module) {
        lemma_open_modules(graph, path, module);
    }
}

#[via_fn]
proof fn visited_all_decreases(
    graph: Graph,
    list: Seq<Seq<char>>,
    index: int,
    path: Seq<Seq<char>>,
    order: Seq<Seq<char>>,
) {
}

/// The modules in the order in which they are loaded for the root: what a
/// module depends on before it, and no order where a module depends on itself.
pub open spec fn load_order(graph: Graph, root: Seq<char>) -> Option<Seq<Seq<char>>> {
    visited(graph, normalized(root), Seq::empty(), Seq::empty())
}

// ---------------------------------------------------------------------------
// What holds of every load order
// ---------------------------------------------------------------------------

/// Every module stands behind all that it depends on.
pub open spec fn after_its_needs(graph: Graph, order: Seq<Seq<char>>) -> bool {
    forall|i: int, d: int|
        0 <= i < order.len() && 0 <= d < needed_by(graph, order[i]).len() ==> order.take(
            i,
        ).contains(#[trigger] needed_by(graph, #[trigger] order[i])[d])
}

/// No module is on the path and in the order.
pub open spec fn apart(path: Seq<Seq<char>>, order: Seq<Seq<char>>) -> bool {
    forall|m: Seq<char>| #[trigger] path.contains(m) ==> !order.contains(m)
}

/// `shorter` is the beginning of `longer`.
pub open spec fn continues(shorter: Seq<Seq<char>>, longer: Seq<Seq<char>>) -> bool {
    shorter.len() <= longer.len() && longer.take(shorter.len() as int) == shorter
}

proof fn lemma_continues_contains(shorter: Seq<Seq<char>>, longer: Seq<Seq<char>>, m: Seq<char>)
    requires
        continues(shorter, longer),
        shorter.contains(m),
    ensures
        longer.contains(m),
{
    let i = choose|i: int| 0 <= i < shorter.len() && shorter[i] == m;
    assert(longer.take(shorter.len() as int)[i] == m);
    assert(longer[i] == m);
}

proof fn lemma_add_module(
    graph: Graph,
    path: Seq<Seq<char>>,
    order: Seq<Seq<char>>,
    module: Seq<char>,
)
    requires
        order.no_duplicates(),
        after_its_needs(graph, order),
        apart(path, order),
        !order.contains(module),
        !path.contains(module),
        forall|d: int|
            0 <= d < needed_by(graph, module).len() ==> order.contains(
                #[trigger] needed_by(graph, module)[d],
            ),
    ensures
        order.push(module).no_duplicates(),
        after_its_needs(graph, order.push(module)),
        apart(path, order.push(module)),
        continues(order, order.push(module)),
        order.push(module).contains(module),
{
    let longer = order.push(module);
    assert(longer.take(order.len() as int) =~= order);
    assert(longer[order.len() as int] == module);
    assert forall|i: int, d: int|
        0 <= i < longer.len() && 0 <= d < needed_by(graph, longer[i]).len() implies longer.take(
        i,
    ).contains(#[trigger] needed_by(graph, #[trigger] longer[i])[d]) by {
        if i < order.len() {
            assert(longer.take(i) =~= order.take(i));
            assert(order.take(i).contains(needed_by(graph, order[i])[d]));
        } else {
            assert(longer.take(i) =~= order);
            assert(order.contains(needed_by(graph, module)[d]));
        }
    }
    assert forall|m: Seq<char>| #[trigger] path.contains(m) implies !longer.contains(m) by {
        if longer.contains(m) {
            let i = choose|i: int| 0 <= i < longer.len() && longer[i] == m;
            if i < order.len() {
                assert(order[i] == m);
            }
        }
    }
}

proof fn lemma_visited(
    graph: Graph,
    module: Seq<char>,
    path: Seq<Seq<char>>,
    order: Seq<Seq<char>>,
)
    requires
        graph.dom().finite(),
        order.no_duplicates(),
        after_its_needs(graph, order),
        apart(path, order),
    ensures
        visited(graph, module, path, order) matches Some(longer) ==> {
            &&& longer.no_duplicates()
            &&& after_its_needs(graph, longer)
            &&& apart(path, longer)
            &&& continues(order, longer)
            &&& longer.contains(module)
        },
    decreases open_modules(graph, path), 0nat,
{
    if order.contains(module) {
        assert(order.take(order.len() as int) =~= order);
    } else if path.contains(module) {
    } else if !graph.contains_key(module) {
        lemma_add_module(graph, path, order, module);
    } else {
        lemma_open_modules(graph, path, module);
        let inner = path.push(module);
        assert(apart(inner, order)) by {
            assert forall|m: Seq<char>| #[trigger] inner.contains(m) implies !order.contains(m) by {
                let i = choose|i: int| 0 <= i < inner.len() && inner[i] == m;
                if i < path.len() {
                    assert(path[i] == m);
                    assert(path.contains(m));
                }
            }
        }
        let list = needed_by(graph, module);
        lemma_visited_all(graph, list, 0, inner, order);
        if let Some(longer) = visited_all(graph, list, 0, inner, order) {
            assert(inner[path.len() as int] == module);
            assert(inner.contains(module));
            assert(apart(path, longer)) by {
                assert forall|m: Seq<char>| #[trigger] path.contains(m) implies !longer.contains(
                    m,
                ) by {
                    let i = choose|i: int| 0 <= i < path.len() && path[i] == m;
                    assert(inner[i] == m);
                    assert(inner.contains(m));
                }
            }
            assert forall|d: int| 0 <= d < needed_by(graph, module).len() implies longer.contains(
                #[trigger] needed_by(graph, module)[d],
            ) by {
                assert(list[d] == needed_by(graph, module)[d]);
            }
            lemma_add_module(graph, path, longer, module);
            assert(longer.push(module).take(order.len() as int) =~= longer.take(order.len() as int));
        }
    }
}

proof fn lemma_visited_all(
    graph: Graph,
    list: Seq<Seq<char>>,
    index: int,
    path: Seq<Seq<char>>,
    order: Seq<Seq<char>>,
)
    requires
        graph.dom().finite(),
        0 <= index <= list.len(),
        order.no_duplicates(),
        after_its_needs(graph, order),
        apart(path, order),
    ensures
        visited_all(graph, list, index, path, order) matches Some(longer) ==> {
            &&& longer.no_duplicates()
            &&& after_its_needs(graph, longer)
            &&& apart(path, longer)
            &&& continues(order, longer)
            &&& forall|d: int| index <= d < list.len() ==> longer.contains(#[trigger] list[d])
        },
    decreases open_modules(graph, path), (1 + list.len() - index) as nat,
{
    if index >= list.len() {
        assert(order.take(order.len() as int) =~= order);
    } else {
        lemma_visited(graph, list[index], path, order);
        if let Some(middle) = visited(graph, list[index], path, order) {
            lemma_visited_all(graph, list, index + 1, path, middle);
            if let Some(longer) = visited_all(graph, list, index + 1, path, middle) {
                assert(longer.take(order.len() as int) =~= order) by {
                    assert forall|i: int| 0 <= i < order.len() implies longer[i] == order[i] by {
                        assert(longer.take(middle.len() as int)[i] == middle[i]);
                        assert(middle.take(order.len() as int)[i] == order[i]);
                    }
                }
                assert forall|d: int| index <= d < list.len() implies longer.contains(
                    #[trigger] list[d],
                ) by {
                    if d == index {
                        lemma_continues_contains(middle, longer, list[d]);
                    }
                }
            }
        }
    }
}

/// In a load order no module comes twice, every module comes behind all that
/// it depends on, and the root comes last.
pub proof fn lemma_load_order(graph: Graph, root: Seq<char>)
    requires
        graph.dom().finite(),
    ensures
        load_order(graph, root) matches Some(order) ==> {
            &&& order.no_duplicates()
            &&& after_its_needs(graph, order)
            &&& order.len() > 0
            &&& order.last() == normalized(root)
        },
{
    let none = Seq::<Seq<char>>::empty();
    lemma_visited(graph, normalized(root), none, none);
    assert(!none.contains(normalized(root)));
}

/// Some walk along the dependencies leads from `root` to `module`.
pub open spec fn reached(graph: Graph, root: Seq<char>, module: Seq<char>) -> bool {
    exists|walk: Seq<Seq<char>>|
        #![trigger is_walk(graph, walk)]
        walk.len() > 0 && walk[0] == root && walk.last() == module && is_walk(graph, walk)
}

proof fn lemma_reached_further(
    graph: Graph,
    root: Seq<char>,
    module: Seq<char>,
    next: Seq<char>,
)
    requires
        reached(graph, root, module),
        needed_by(graph, module).contains(next),
    ensures
        reached(graph, root, next),
{
    let walk = choose|walk: Seq<Seq<char>>|
        #![trigger is_walk(graph, walk)]
        walk.len() > 0 && walk[0] == root && walk.last() == module && is_walk(graph, walk);
    let longer = walk.push(next);
    assert(is_walk(graph, longer)) by {
        assert forall|i: int| 0 <= i < longer.len() - 1 implies needed_by(
            graph,
            #[trigger] longer[i],
        ).contains(longer[i + 1]) by {
            if i < walk.len() - 1 {
                assert(needed_by(graph, walk[i]).contains(walk[i + 1]));
            }
        }
    }
    assert(longer[0] == root && longer.last() == next);
}

/// Every module of the order can be reached from the root.
pub open spec fn all_reached(graph: Graph, root: Seq<char>, order: Seq<Seq<char>>) -> bool {
    forall|i: int| 0 <= i < order.len() ==> reached(graph, root, #[trigger] order[i])
}

proof fn lemma_visited_reached(
    graph: Graph,
    root: Seq<char>,
    module: Seq<char>,
    path: Seq<Seq<char>>,
    order: Seq<Seq<char>>,
)
    requires
        graph.dom().finite(),
        reached(graph, root, module),
        all_reached(graph, root, order),
    ensures
        visited(graph, module, path, order) matches Some(longer) ==> all_reached(
            graph,
            root,
            longer,
        ),
    decreases open_modules(graph, path), 0nat,
{
    if !order.contains(module) && !path.contains(module) && graph.contains_key(module) {
        lemma_open_modules(graph, path, module);
        lemma_visited_all_reached(graph, root, module, 0, path.push(module), order);
    }
}

proof fn lemma_visited_all_reached(
    graph: Graph,
    root: Seq<char>,
    module: Seq<char>,
    index: int,
    path: Seq<Seq<char>>,
    order: Seq<Seq<char>>,
)
    requires
        graph.dom().finite(),
        0 <= index <= needed_by(graph, module).len(),
        reached(graph, root, module),
        all_reached(graph, root, order),
    ensures
        visited_all(graph, needed_by(graph, module), index, path, order) matches Some(longer)
            ==> all_reached(graph, root, longer),
    decreases open_modules(graph, path), (1 + needed_by(graph, module).len() - index) as nat,
{
    let list = needed_by(graph, module);
    if index < list.len() {
        assert(list.contains(list[index]));
        lemma_reached_further(graph, root, module, list[index]);
        lemma_visited_reached(graph, root, list[index], path, order);
        if let Some(middle) = visited(graph, list[index], path, order) {
            lemma_visited_all_reached(graph, root, module, index + 1, path, middle);
        }
    }
}

/// A load order holds just the modules that can be reached from the root along
/// the dependencies.
pub proof fn lemma_order_is_reached(graph: Graph, root: Seq<char>, module: Seq<char>)
    requires
        graph.dom().finite(),
    ensures
        load_order(graph, root) matches Some(order) ==> (order.contains(module) <==> reached(
            graph,
            normalized(root),
            module,
        )),
{
    let start = normalized(root);
    let none = Seq::<Seq<char>>::empty();
    if let Some(order) = load_order(graph, root) {
        let alone = seq![start];
        assert(is_walk(graph, alone) && alone[0] == start && alone.last() == start);
        lemma_visited_reached(graph, start, start, none, none);
        lemma_load_order(graph, root);
        if reached(graph, start, module) {
            let walk = choose|walk: Seq<Seq<char>>|
                #![trigger is_walk(graph, walk)]
                walk.len() > 0 && walk[0] == start && walk.last() == module && is_walk(
                    graph,
                    walk,
                );
            assert(order.contains(order.last()));
            lemma_walk_down(graph, order, walk, 0, walk.len() - 1);
        }
    }
}

/// Each module of the walk is one that the module before it depends on.
pub open spec fn is_walk(graph: Graph, walk: Seq<Seq<char>>) -> bool {
    forall|i: int|
        0 <= i < walk.len() - 1 ==> needed_by(graph, #[trigger] walk[i]).contains(walk[i + 1])
}

proof fn lemma_walk_down(graph: Graph, order: Seq<Seq<char>>, walk: Seq<Seq<char>>, i: int, j: int)
    requires
        order.no_duplicates(),
        after_its_needs(graph, order),
        is_walk(graph, walk),
        walk.len() > 0,
        order.contains(walk[0]),
        0 <= i <= j < walk.len(),
    ensures
        order.contains(walk[i]),
        order.contains(walk[j]),
        i < j ==> order.index_of(walk[j]) < order.index_of(walk[i]),
    decreases j,
{
    if j > 0 {
        lemma_walk_down(graph, order, walk, 0, j - 1);
        let before = walk[j - 1];
        assert(needed_by(graph, walk[j - 1]).contains(walk[j - 1 + 1]));
        let d = choose|d: int|
            0 <= d < needed_by(graph, before).len() && needed_by(graph, before)[d] == walk[j];
        let at = order.index_of(before);
        assert(order[at] == before);
        assert(order.take(at).contains(needed_by(graph, order[at])[d]));
        let k = choose|k: int| 0 <= k < order.take(at).len() && order.take(at)[k] == walk[j];
        assert(order[k] == walk[j]);
        assert(order.contains(walk[j]));
        let found = order.index_of(walk[j]);
        assert(order[found] == walk[j]);
        assert(found == k);
        if i < j {
            lemma_walk_down(graph, order, walk, i, j - 1);
        } else {
            lemma_walk_down(graph, order, walk, 0, j - 1);
        }
    }
}

/// The walk that shows that a module reached along `path` depends on itself.
proof fn lemma_failed_visit(
    graph: Graph,
    module: Seq<char>,
    path: Seq<Seq<char>>,
    order: Seq<Seq<char>>,
) -> (walk: Seq<Seq<char>>)
    requires
        graph.dom().finite(),
        visited(graph, module, path, order) is None,
        is_walk(graph, path.push(module)),
    ensures
        is_walk(graph, walk),
        !walk.no_duplicates(),
        walk.len() > 0,
        walk[0] == path.push(module)[0],
    decreases open_modules(graph, path), 0nat,
{
    let here = path.push(module);
    if path.contains(module) {
        let i = choose|i: int| 0 <= i < path.len() && path[i] == module;
        assert(here[i] == here[path.len() as int]);
        here
    } else {
        lemma_open_modules(graph, path, module);
        lemma_failed_visits(graph, module, 0, here, order)
    }
}

proof fn lemma_failed_visits(
    graph: Graph,
    module: Seq<char>,
    index: int,
    path: Seq<Seq<char>>,
    order: Seq<Seq<char>>,
) -> (walk: Seq<Seq<char>>)
    requires
        graph.dom().finite(),
        0 <= index <= needed_by(graph, module).len(),
        visited_all(graph, needed_by(graph, module), index, path, order) is None,
        is_walk(graph, path),
        path.len() > 0,
        path.last() == module,
    ensures
        is_walk(graph, walk),
        !walk.no_duplicates(),
        walk.len() > 0,
        walk[0] == path[0],
    decreases open_modules(graph, path), (1 + needed_by(graph, module).len() - index) as nat,
{
    let list = needed_by(graph, module);
    match visited(graph, list[index], path, order) {
        None => {
            let next = path.push(list[index]);
            assert(is_walk(graph, next)) by {
                assert forall|i: int| 0 <= i < next.len() - 1 implies needed_by(
                    graph,
                    #[trigger] next[i],
                ).contains(next[i + 1]) by {
                    if i < path.len() - 1 {
                        assert(needed_by(graph, path[i]).contains(path[i + 1]));
                    } else {
                        assert(list[index] == next[i + 1]);
                    }
                }
            }
            lemma_failed_visit(graph, list[index], path, order)
        },
        Some(longer) => lemma_failed_visits(graph, module, index + 1, path, longer),
    }
}

/// There is a load order just where no walk along the dependencies from the
/// root comes twice to a module.
pub proof fn lemma_order_unless_cycle(graph: Graph, root: Seq<char>)
    requires
        graph.dom().finite(),
    ensures
        load_order(graph, root) is Some <==> forall|walk: Seq<Seq<char>>|
            walk.len() > 0 && walk[0] == normalized(root) && is_walk(graph, walk)
                ==> #[trigger] walk.no_duplicates(),
{
    let none = Seq::<Seq<char>>::empty();
    lemma_visited(graph, normalized(root), none, none);
    if let Some(order) = load_order(graph, root) {
        assert forall|walk: Seq<Seq<char>>|
            walk.len() > 0 && walk[0] == normalized(root) && is_walk(
                graph,
                walk,
            ) implies #[trigger] walk.no_duplicates() by {
            assert forall|i: int, j: int| 0 <= i < walk.len() && 0 <= j < walk.len() && i
                != j implies walk[i] != walk[j] by {
                if i < j {
                    lemma_walk_down(graph, order, walk, i, j);
                } else {
                    lemma_walk_down(graph, order, walk, j, i);
                }
            }
        }
    } else {
        let start = none.push(normalized(root));
        let walk = lemma_failed_visit(graph, normalized(root), none, none);
        assert(walk[0] == normalized(root));
    }
}

// ---------------------------------------------------------------------------
// Finding the load order
// ---------------------------------------------------------------------------

/// What is still to be done: to enter a module, or to leave it.
enum Frame {
    Enter(String),
    Exit(String),
}

enum Todo {
    Enter(Seq<char>),
    Exit(Seq<char>),
}

spec fn todo(frame: Frame) -> Todo {
    match frame {
        Frame::Enter(module) => Todo::Enter(module@),
        Frame::Exit(module) => Todo::Exit(module@),
    }
}

/// The load order after everything on the stack has been done, the last first.
spec fn done(graph: Graph, stack: Seq<Todo>, path: Seq<Seq<char>>, order: Seq<Seq<char>>) -> Option<
    Seq<Seq<char>>,
>
    decreases stack.len(),
{
    if stack.len() == 0 {
        Some(order)
    } else {
        match stack.last() {
            Todo::Enter(module) => match visited(graph, module, path, order) {
                None => None,
                Some(longer) => done(graph, stack.drop_last(), path, longer),
            },
            Todo::Exit(module) => done(
                graph,
                stack.drop_last(),
                path.drop_last(),
                order.push(module),
            ),
        }
    }
}

/// To enter the modules of `list` from `index` on, the first of them first.
spec fn entering(list: Seq<Seq<char>>, index: int) -> Seq<Todo>
    decreases list.len() - index,
{
    if index >= list.len() {
        Seq::empty()
    } else {
        entering(list, index + 1).push(Todo::Enter(list[index]))
    }
}

proof fn lemma_entering(
    graph: Graph,
    below: Seq<Todo>,
    list: Seq<Seq<char>>,
    index: int,
    path: Seq<Seq<char>>,
    order: Seq<Seq<char>>,
)
    requires
        graph.dom().finite(),
        0 <= index <= list.len(),
    ensures
        done(graph, below + entering(list, index), path, order) == (match visited_all(
            graph,
            list,
            index,
            path,
            order,
        ) {
            None => None,
            Some(longer) => done(graph, below, path, longer),
        }),
    decreases list.len() - index,
{
    let stack = below + entering(list, index);
    if index >= list.len() {
        assert(stack =~= below);
    } else {
        assert(stack.last() == Todo::Enter(list[index]));
        assert(stack.drop_last() =~= below + entering(list, index + 1));
        if let Some(longer) = visited(graph, list[index], path, order) {
            lemma_entering(graph, below, list, index + 1, path, longer);
        }
    }
}

fn has_text(list: &Vec<String>, text: &str) -> (found: bool)
    ensures
        found == list.deep_view().contains(text@),
{
    let mut i: usize = 0;
    while i < list.len()
        invariant
            i <= list.len(),
            forall|j: int| 0 <= j < i ==> #[trigger] list.deep_view()[j] != text@,
        decreases list.len() - i,
    {
        assert(list.deep_view()[i as int] == list@[i as int]@);
        if same_text(&list[i], text) {
            return true;
        }
        i += 1;
    }
    false
}

/// The modules that have been entered or not, of those with dependencies.
spec fn untouched(graph: Graph, path: Seq<Seq<char>>, order: Seq<Seq<char>>) -> Set<Seq<char>> {
    graph.dom().difference(path.to_set()).difference(order.to_set())
}

/// Adds `root` and all that it depends on to `load_order`, each behind what it
/// depends on. Works from a list of its own, so that no chain of dependencies
/// is too long for it.
pub fn visit_module(
    root: &str,
    dependencies: &NameMap<Vec<String>>,
    load_order: &mut Vec<String>,
) -> (outcome: AppResult<()>)
    ensures
        match outcome {
            Ok(()) => visited(
                dependencies@,
                root@,
                Seq::empty(),
                old(load_order).deep_view(),
            ) == Some(final(load_order).deep_view()),
            Err(error) => visited(
                dependencies@,
                root@,
                Seq::empty(),
                old(load_order).deep_view(),
            ) is None && error.code == ReasonCode::RcPeParseInvalid,
        },
{
    let ghost graph = dependencies@;
    let mut stack: Vec<Frame> = Vec::new();
    let mut visiting: Vec<String> = Vec::new();
    stack.push(Frame::Enter(root.to_owned()));
    let ghost whole = visited(graph, root@, Seq::empty(), load_order.deep_view());
    proof {
        dependencies.lemma_finite();
        reveal_with_fuel(done, 2);
        reveal_with_fuel(exits_match, 2);
        let models = stack@.map_values(|frame: Frame| todo(frame));
        assert(models.last() == Todo::Enter(root@));
        assert(models.drop_last() =~= Seq::<Todo>::empty());
        assert(visiting.deep_view() =~= Seq::<Seq<char>>::empty());
        assert(stack@.last() is Enter);
    }
    while stack.len() > 0
        invariant
            graph == dependencies@,
            graph.dom().finite(),
            whole == visited(graph, root@, Seq::empty(), old(load_order).deep_view()),
            whole == done(
                graph,
                stack@.map_values(|frame: Frame| todo(frame)),
                visiting.deep_view(),
                load_order.deep_view(),
            ),
            exits_match(stack@, visiting.deep_view()),
        decreases
            untouched(graph, visiting.deep_view(), load_order.deep_view()).len(),
            stack.len(),
    {
        let ghost models = stack@.map_values(|frame: Frame| todo(frame));
        let ghost path = visiting.deep_view();
        let ghost order = load_order.deep_view();
        let ghost frames = stack@;
        let frame: Frame = match stack.pop() {
            Some(frame) => frame,
            None => {
                assert(false);
                return Ok(());
            },
        };
        let ghost below = stack@.map_values(|frame: Frame| todo(frame));
        proof {
            assert(models.last() == todo(frame));
            assert(models.drop_last() =~= below);
            lemma_exits_pop(frames, path);
        }
        match frame {
            Frame::Enter(module) => {
                if has_text(load_order, &module) {
                    continue;
                }
                if has_text(&visiting, &module) {
                    return invalid(&joined("dependency cycle detected at ", &module));
                }
                match dependencies.get(&module) {
                    None => {
                        load_order.push(module);
                        proof {
                            assert(load_order.deep_view() =~= order.push(module@));
                            lemma_untouched_leaf(graph, path, order, module@);
                        }
                    },
                    Some(needed) => {
                        let ghost list = needed_by(graph, module@);
                        visiting.push(module.clone());
                        stack.push(Frame::Exit(module));
                        let ghost inner = path.push(module@);
                        let ghost base = below.push(Todo::Exit(module@));
                        proof {
                            assert(visiting.deep_view() =~= inner);
                            assert(stack@.map_values(|frame: Frame| todo(frame)) =~= base);
                            lemma_exits_push(frames.drop_last(), path, Frame::Exit(module));
                            assert(stack@ =~= frames.drop_last().push(Frame::Exit(module)));
                            lemma_untouched_entered(graph, path, order, module@);
                        }
                        let mut left: usize = needed.len();
                        assert(base + entering(list, left as int) =~= base);
                        while left > 0
                            invariant
                                left <= needed.len(),
                                needed.deep_view().len() == needed.len(),
                                list == needed.deep_view().map_values(
                                    |name: Seq<char>| normalized(name),
                                ),
                                stack@.map_values(|frame: Frame| todo(frame)) == base + entering(
                                    list,
                                    left as int,
                                ),
                                exits_match(stack@, inner),
                            decreases left,
                        {
                            let ghost above = base + entering(list, left as int);
                            left -= 1;
                            let name: String = normalize_module_name(&needed[left]);
                            let ghost before = stack@;
                            assert(list[left as int] == name@);
                            stack.push(Frame::Enter(name));
                            proof {
                                let rest = entering(list, left + 1);
                                assert(entering(list, left as int) == rest.push(
                                    Todo::Enter(list[left as int]),
                                ));
                                assert(stack@.last() == Frame::Enter(name));
                                assert(stack@.map_values(|frame: Frame| todo(frame)) =~= above.push(
                                    Todo::Enter(list[left as int]),
                                ));
                                assert(above.push(Todo::Enter(list[left as int])) =~= base
                                    + entering(list, left as int));
                                lemma_exits_enter(before, inner, Frame::Enter(name));
                            }
                        }
                        proof {
                            lemma_entering(graph, base, list, 0, inner, order);
                            if let Some(longer) = visited_all(graph, list, 0, inner, order) {
                                assert(base.last() == Todo::Exit(module@));
                                assert(base.drop_last() =~= below);
                                assert(inner.drop_last() =~= path);
                            }
                        }
                    },
                }
            },
            Frame::Exit(module) => {
                visiting.pop();
                load_order.push(module);
                proof {
                    assert(visiting.deep_view() =~= path.drop_last());
                    assert(load_order.deep_view() =~= order.push(module@));
                    lemma_untouched_left(graph, path, order, module@);
                }
            },
        }
    }
    Ok(())
}

/// The modules to leave are, in order, those on the path.
spec fn exits_match(stack: Seq<Frame>, path: Seq<Seq<char>>) -> bool
    decreases stack.len(),
{
    if stack.len() == 0 {
        path.len() == 0
    } else {
        match stack.last() {
            Frame::Enter(_) => exits_match(stack.drop_last(), path),
            Frame::Exit(module) => path.len() > 0 && path.last() == module@ && exits_match(
                stack.drop_last(),
                path.drop_last(),
            ),
        }
    }
}

proof fn lemma_exits_pop(stack: Seq<Frame>, path: Seq<Seq<char>>)
    requires
        stack.len() > 0,
        exits_match(stack, path),
    ensures
        match stack.last() {
            Frame::Enter(_) => exits_match(stack.drop_last(), path),
            Frame::Exit(module) => path.len() > 0 && path.last() == module@ && exits_match(
                stack.drop_last(),
                path.drop_last(),
            ),
        },
{
}

proof fn lemma_exits_push(stack: Seq<Frame>, path: Seq<Seq<char>>, frame: Frame)
    requires
        exits_match(stack, path),
        frame is Exit,
    ensures
        exits_match(stack.push(frame), path.push(frame->Exit_0@)),
{
    assert(stack.push(frame).drop_last() =~= stack);
    assert(path.push(frame->Exit_0@).drop_last() =~= path);
}

proof fn lemma_exits_enter(stack: Seq<Frame>, path: Seq<Seq<char>>, frame: Frame)
    requires
        exits_match(stack, path),
        frame is Enter,
    ensures
        exits_match(stack.push(frame), path),
{
    assert(stack.push(frame).drop_last() =~= stack);
}

proof fn lemma_pushed_set(list: Seq<Seq<char>>, text: Seq<char>)
    ensures
        list.push(text).to_set() == list.to_set().insert(text),
{
    assert forall|m: Seq<char>| list.push(text).to_set().contains(m) <==> #[trigger] list.to_set().insert(
        text,
    ).contains(m) by {
        if list.contains(m) {
            let i = choose|i: int| 0 <= i < list.len() && list[i] == m;
            assert(list.push(text)[i] == m);
        }
        if m == text {
            assert(list.push(text)[list.len() as int] == m);
        }
        if list.push(text).contains(m) {
            let i = choose|i: int| 0 <= i < list.push(text).len() && list.push(text)[i] == m;
            if i < list.len() {
                assert(list[i] == m);
            }
        }
    }
    assert(list.push(text).to_set() =~= list.to_set().insert(text));
}

proof fn lemma_untouched_leaf(
    graph: Graph,
    path: Seq<Seq<char>>,
    order: Seq<Seq<char>>,
    module: Seq<char>,
)
    requires
        !graph.contains_key(module),
    ensures
        untouched(graph, path, order.push(module)) == untouched(graph, path, order),
{
    lemma_pushed_set(order, module);
    assert(untouched(graph, path, order.push(module)) =~= untouched(graph, path, order));
}

proof fn lemma_untouched_entered(
    graph: Graph,
    path: Seq<Seq<char>>,
    order: Seq<Seq<char>>,
    module: Seq<char>,
)
    requires
        graph.dom().finite(),
        graph.contains_key(module),
        !path.contains(module),
        !order.contains(module),
    ensures
        untouched(graph, path.push(module), order).len() < untouched(graph, path, order).len(),
{
    lemma_pushed_set(path, module);
    let before = untouched(graph, path, order);
    assert(untouched(graph, path.push(module), order) =~= before.remove(module));
    assert(before.contains(module));
}

proof fn lemma_untouched_left(
    graph: Graph,
    path: Seq<Seq<char>>,
    order: Seq<Seq<char>>,
    module: Seq<char>,
)
    requires
        path.len() > 0,
        path.last() == module,
    ensures
        untouched(graph, path.drop_last(), order.push(module)) == untouched(graph, path, order),
{
    lemma_pushed_set(order, module);
    lemma_pushed_set(path.drop_last(), module);
    assert(path.drop_last().push(module) =~= path);
    assert(untouched(graph, path.drop_last(), order.push(module)) =~= untouched(
        graph,
        path,
        order,
    ));
}

// ---------------------------------------------------------------------------
// The plan
// ---------------------------------------------------------------------------

/// What modules are told of.
#[derive(Clone, Copy, PartialEq, Eq, Structural)]
pub enum Occasion {
    ProcessAttach,
    ProcessDetach,
    ThreadAttach,
    ThreadDetach,
}

impl Occasion {
    /// The call of a thread local storage callback.
    pub open spec fn callback_stage(self, callback: u64) -> LifecycleStage {
        match self {
            Occasion::ProcessAttach => LifecycleStage::TlsProcessAttach(callback),
            Occasion::ProcessDetach => LifecycleStage::TlsProcessDetach(callback),
            Occasion::ThreadAttach => LifecycleStage::TlsThreadAttach(callback),
            Occasion::ThreadDetach => LifecycleStage::TlsThreadDetach(callback),
        }
    }

    /// The call of the module's entry point.
    pub open spec fn entry_stage(self) -> LifecycleStage {
        match self {
            Occasion::ProcessAttach => LifecycleStage::DllMainProcessAttach,
            Occasion::ProcessDetach => LifecycleStage::DllMainProcessDetach,
            Occasion::ThreadAttach => LifecycleStage::DllMainThreadAttach,
            Occasion::ThreadDetach => LifecycleStage::DllMainThreadDetach,
        }
    }

    fn callback_call(self, callback: u64) -> (stage: LifecycleStage)
        ensures
            stage == self.callback_stage(callback),
    {
        match self {
            Occasion::ProcessAttach => LifecycleStage::TlsProcessAttach(callback),
            Occasion::ProcessDetach => LifecycleStage::TlsProcessDetach(callback),
            Occasion::ThreadAttach => LifecycleStage::TlsThreadAttach(callback),
            Occasion::ThreadDetach => LifecycleStage::TlsThreadDetach(callback),
        }
    }

    fn entry_call(self) -> (stage: LifecycleStage)
        ensures
            stage == self.entry_stage(),
    {
        match self {
            Occasion::ProcessAttach => LifecycleStage::DllMainProcessAttach,
            Occasion::ProcessDetach => LifecycleStage::DllMainProcessDetach,
            Occasion::ThreadAttach => LifecycleStage::DllMainThreadAttach,
            Occasion::ThreadDetach => LifecycleStage::DllMainThreadDetach,
        }
    }
}

/// The callbacks of a module.
pub open spec fn callbacks_of(callbacks: Map<Seq<char>, Vec<u64>>, module: Seq<char>) -> Seq<u64> {
    if callbacks.contains_key(module) {
        callbacks[module]@
    } else {
        Seq::empty()
    }
}

/// The events of one module: its callbacks in order, then its entry point.
pub open spec fn module_events(
    callbacks: Map<Seq<char>, Vec<u64>>,
    module: Seq<char>,
    occasion: Occasion,
) -> Seq<LifecycleEventModel> {
    callbacks_of(callbacks, module).map_values(
        |callback: u64|
            LifecycleEventModel { module, stage: occasion.callback_stage(callback) },
    ).push(LifecycleEventModel { module, stage: occasion.entry_stage() })
}

/// The events of the modules, in their order.
pub open spec fn all_events(
    callbacks: Map<Seq<char>, Vec<u64>>,
    modules: Seq<Seq<char>>,
    occasion: Occasion,
) -> Seq<LifecycleEventModel>
    decreases modules.len(),
{
    if modules.len() == 0 {
        Seq::empty()
    } else {
        all_events(callbacks, modules.drop_last(), occasion) + module_events(
            callbacks,
            modules.last(),
            occasion,
        )
    }
}

/// The place in the order of the modules to which event `i` belongs.
pub open spec fn place_of_event(
    callbacks: Map<Seq<char>, Vec<u64>>,
    modules: Seq<Seq<char>>,
    occasion: Occasion,
    i: int,
) -> int
    decreases modules.len(),
{
    if modules.len() == 0 {
        -1
    } else if i < all_events(callbacks, modules.drop_last(), occasion).len() {
        place_of_event(callbacks, modules.drop_last(), occasion, i)
    } else {
        modules.len() - 1
    }
}

/// Modules are told in their order, and each is told of all that concerns it
/// before the next one.
pub proof fn lemma_told_in_order(
    callbacks: Map<Seq<char>, Vec<u64>>,
    modules: Seq<Seq<char>>,
    occasion: Occasion,
)
    ensures
        ({
            let events = all_events(callbacks, modules, occasion);
            &&& forall|i: int|
                0 <= i < events.len() ==> {
                    let place = place_of_event(callbacks, modules, occasion, i);
                    0 <= place < modules.len() && (#[trigger] events[i]).module == modules[place]
                }
            &&& forall|i: int, j: int|
                0 <= i <= j < events.len() ==> place_of_event(callbacks, modules, occasion, i)
                    <= place_of_event(callbacks, modules, occasion, j)
        }),
    decreases modules.len(),
{
    if modules.len() > 0 {
        let front = modules.drop_last();
        lemma_told_in_order(callbacks, front, occasion);
        let sooner = all_events(callbacks, front, occasion);
        let later = module_events(callbacks, modules.last(), occasion);
        let events = all_events(callbacks, modules, occasion);
        assert(events == sooner + later);
        assert forall|i: int| 0 <= i < events.len() implies {
            let place = place_of_event(callbacks, modules, occasion, i);
            0 <= place < modules.len() && (#[trigger] events[i]).module == modules[place]
        } by {
            if i < sooner.len() {
                assert(events[i] == sooner[i]);
            } else {
                assert(events[i] == later[i - sooner.len()]);
            }
        }
        assert forall|i: int, j: int| 0 <= i <= j < events.len() implies place_of_event(
            callbacks,
            modules,
            occasion,
            i,
        ) <= place_of_event(callbacks, modules, occasion, j) by {
            let first = place_of_event(callbacks, front, occasion, i);
            if j < sooner.len() {
                assert(first <= place_of_event(callbacks, front, occasion, j));
                assert(place_of_event(callbacks, modules, occasion, i) == first);
            } else if i < sooner.len() {
                assert(sooner[i].module == front[first]);
            }
        }
    }
}

/// The events of the module at `place` stand side by side: `events[first + k]`
/// calls callback `k` of the module, and the one behind the last callback calls
/// its entry point.
pub open spec fn told_at(
    events: Seq<LifecycleEventModel>,
    module: Seq<char>,
    callbacks: Seq<u64>,
    occasion: Occasion,
    first: int,
) -> bool {
    &&& 0 <= first
    &&& first + callbacks.len() < events.len()
    &&& forall|k: int|
        0 <= k < callbacks.len() ==> {
            &&& (#[trigger] events[first + k]).module == module
            &&& calls_callback(events[first + k].stage, occasion, callbacks[k])
        }
    &&& events[first + callbacks.len()].module == module
    &&& calls_entry(events[first + callbacks.len()].stage, occasion)
}

/// The stage is the call of the given callback on the given occasion.
pub open spec fn calls_callback(stage: LifecycleStage, occasion: Occasion, callback: u64) -> bool {
    match stage {
        LifecycleStage::TlsProcessAttach(called) => occasion is ProcessAttach && called == callback,
        LifecycleStage::TlsProcessDetach(called) => occasion is ProcessDetach && called == callback,
        LifecycleStage::TlsThreadAttach(called) => occasion is ThreadAttach && called == callback,
        LifecycleStage::TlsThreadDetach(called) => occasion is ThreadDetach && called == callback,
        _ => false,
    }
}

/// The stage is the call of an entry point on the given occasion.
pub open spec fn calls_entry(stage: LifecycleStage, occasion: Occasion) -> bool {
    match stage {
        LifecycleStage::DllMainProcessAttach => occasion is ProcessAttach,
        LifecycleStage::DllMainProcessDetach => occasion is ProcessDetach,
        LifecycleStage::DllMainThreadAttach => occasion is ThreadAttach,
        LifecycleStage::DllMainThreadDetach => occasion is ThreadDetach,
        _ => false,
    }
}

/// How many events the modules are told of: one for each callback and one for
/// each entry point.
pub open spec fn events_owed(callbacks: Map<Seq<char>, Vec<u64>>, modules: Seq<Seq<char>>) -> int
    decreases modules.len(),
{
    if modules.len() == 0 {
        0
    } else {
        let last = modules.last();
        events_owed(callbacks, modules.drop_last()) + 1 + (if callbacks.contains_key(last) {
            callbacks[last]@.len() as int
        } else {
            0
        })
    }
}

/// The module at `place` is told by all its callbacks, in the order of its list
/// of callbacks, and then by its entry point; its events follow those of all
/// modules before it, and nothing else is told.
pub proof fn lemma_callbacks_before_entry(
    callbacks: Map<Seq<char>, Vec<u64>>,
    modules: Seq<Seq<char>>,
    occasion: Occasion,
    place: int,
)
    requires
        0 <= place < modules.len(),
    ensures
        told_at(
            all_events(callbacks, modules, occasion),
            modules[place],
            if callbacks.contains_key(modules[place]) {
                callbacks[modules[place]]@
            } else {
                Seq::empty()
            },
            occasion,
            events_owed(callbacks, modules.take(place)),
        ),
        all_events(callbacks, modules, occasion).len() == events_owed(callbacks, modules),
    decreases modules.len(),
{
    let front = modules.drop_last();
    let sooner = all_events(callbacks, front, occasion);
    let later = module_events(callbacks, modules.last(), occasion);
    let events = all_events(callbacks, modules, occasion);
    let list = callbacks_of(callbacks, modules[place]);
    let first = events_owed(callbacks, modules.take(place));
    assert(events == sooner + later);
    lemma_events_counted(callbacks, front, occasion);
    lemma_events_counted(callbacks, modules, occasion);
    if place < front.len() {
        lemma_callbacks_before_entry(callbacks, front, occasion, place);
        assert(front.take(place) =~= modules.take(place));
        assert forall|k: int| 0 <= k < list.len() implies {
            &&& (#[trigger] events[first + k]).module == modules[place]
            &&& calls_callback(events[first + k].stage, occasion, list[k])
        } by {
            assert(events[first + k] == sooner[first + k]);
        }
        assert(events[first + list.len()] == sooner[first + list.len()]);
    } else {
        assert(modules.take(place) =~= front);
        lemma_events_counted(callbacks, modules.take(place), occasion);
        assert forall|k: int| 0 <= k < list.len() implies {
            &&& (#[trigger] events[first + k]).module == modules[place]
            &&& calls_callback(events[first + k].stage, occasion, list[k])
        } by {
            assert(events[first + k] == later[k]);
        }
        assert(events[first + list.len()] == later[list.len() as int]);
    }
}

proof fn lemma_events_counted(
    callbacks: Map<Seq<char>, Vec<u64>>,
    modules: Seq<Seq<char>>,
    occasion: Occasion,
)
    ensures
        all_events(callbacks, modules, occasion).len() == events_owed(callbacks, modules),
    decreases modules.len(),
{
    if modules.len() > 0 {
        lemma_events_counted(callbacks, modules.drop_last(), occasion);
    }
}

/// A plan tells of the start of the process and of a thread in load order, and
/// of their ends in the opposite order; each list calls the callbacks of every
/// module before its entry point.
pub proof fn lemma_plan_tells_all(
    callbacks: Map<Seq<char>, Vec<u64>>,
    order: Seq<Seq<char>>,
    place: int,
)
    requires
        0 <= place < order.len(),
    ensures
        ({
            let plan = plan_of(callbacks, order);
            let module = order[place];
            let list = if callbacks.contains_key(module) {
                callbacks[module]@
            } else {
                Seq::empty()
            };
            let sooner = events_owed(callbacks, order.take(place));
            let total = events_owed(callbacks, order);
            &&& plan.load_order == order
            &&& plan.process_attach.len() == total
            &&& plan.thread_start.len() == total
            &&& plan.process_detach.len() == total
            &&& plan.thread_end.len() == total
            &&& told_at(plan.process_attach, module, list, Occasion::ProcessAttach, sooner)
            &&& told_at(plan.thread_start, module, list, Occasion::ThreadAttach, sooner)
            &&& told_at(
                plan.process_detach,
                module,
                list,
                Occasion::ProcessDetach,
                total - sooner - list.len() - 1,
            )
            &&& told_at(
                plan.thread_end,
                module,
                list,
                Occasion::ThreadDetach,
                total - sooner - list.len() - 1,
            )
        }),
{
    let back = order.reverse();
    let mirrored = order.len() - 1 - place;
    assert(back[mirrored] == order[place]);
    lemma_callbacks_before_entry(callbacks, order, Occasion::ProcessAttach, place);
    lemma_callbacks_before_entry(callbacks, order, Occasion::ThreadAttach, place);
    lemma_callbacks_before_entry(callbacks, back, Occasion::ProcessDetach, mirrored);
    lemma_callbacks_before_entry(callbacks, back, Occasion::ThreadDetach, mirrored);
    lemma_owed_reversed(callbacks, order, place);
    lemma_owed_reversed(callbacks, order, 0);
    assert(order.take(0).len() == 0);
    assert(back.take(order.len() as int) =~= back);
    assert(order.take(place + 1).drop_last() =~= order.take(place));
    lemma_owed_reversed(callbacks, order, place + 1);
}

/// What is owed to the modules from `place` on is owed to as many modules at
/// the front of the opposite order.
proof fn lemma_owed_reversed(
    callbacks: Map<Seq<char>, Vec<u64>>,
    order: Seq<Seq<char>>,
    place: int,
)
    requires
        0 <= place <= order.len(),
    ensures
        events_owed(callbacks, order.reverse().take(order.len() - place)) == events_owed(
            callbacks,
            order,
        ) - events_owed(callbacks, order.take(place)),
    decreases order.len() - place,
{
    let back = order.reverse();
    if place < order.len() {
        lemma_owed_reversed(callbacks, order, place + 1);
        assert(back.take(order.len() - place).drop_last() =~= back.take(order.len() - place - 1));
        assert(back.take(order.len() - place).last() == order[place]);
        assert(order.take(place + 1).drop_last() =~= order.take(place));
        assert(order.take(place + 1).last() == order[place]);
    } else {
        assert(order.take(place) =~= order);
        assert(back.take(0).len() == 0);
    }
}

/// The plan for the given load order: modules are told of the start of a
/// process or thread in load order and of its end in the opposite order.
pub open spec fn plan_of(callbacks: Map<Seq<char>, Vec<u64>>, order: Seq<Seq<char>>) -> LifecyclePlanModel {
    LifecyclePlanModel {
        load_order: order,
        process_attach: all_events(callbacks, order, Occasion::ProcessAttach),
        process_detach: all_events(callbacks, order.reverse(), Occasion::ProcessDetach),
        thread_start: all_events(callbacks, order, Occasion::ThreadAttach),
        thread_end: all_events(callbacks, order.reverse(), Occasion::ThreadDetach),
    }
}

fn append_events(
    callbacks: &NameMap<Vec<u64>>,
    module: &String,
    occasion: Occasion,
    events: &mut Vec<LifecycleEvent>,
)
    ensures
        final(events).deep_view() == old(events).deep_view() + module_events(
            callbacks@,
            module@,
            occasion,
        ),
{
    let ghost start = events.deep_view();
    let ghost all = callbacks_of(callbacks@, module@);
    match callbacks.get(module) {
        None => {},
        Some(list) => {
            let mut i: usize = 0;
            while i < list.len()
                invariant
                    i <= list.len(),
                    all == list@,
                    events.deep_view() == start + all.take(i as int).map_values(
                        |callback: u64|
                            LifecycleEventModel {
                                module: module@,
                                stage: occasion.callback_stage(callback),
                            },
                    ),
                decreases list.len() - i,
            {
                let event = LifecycleEvent {
                    module: module.clone(),
                    stage: occasion.callback_call(list[i]),
                };
                let ghost before = events.deep_view();
                events.push(event);
                proof {
                    assert(events.deep_view() =~= before.push(event.deep_view()));
                    assert(events.deep_view() =~= start + all.take(i + 1).map_values(
                        |callback: u64|
                            LifecycleEventModel {
                                module: module@,
                                stage: occasion.callback_stage(callback),
                            },
                    ));
                }
                i += 1;
            }
            assert(all.take(i as int) =~= all);
        },
    }
    let event = LifecycleEvent { module: module.clone(), stage: occasion.entry_call() };
    let ghost before = events.deep_view();
    events.push(event);
    assert(events.deep_view() =~= before.push(event.deep_view()));
    assert(events.deep_view() =~= start + module_events(callbacks@, module@, occasion));
}

fn events_forward(callbacks: &NameMap<Vec<u64>>, modules: &Vec<String>, occasion: Occasion) -> (events:
    Vec<LifecycleEvent>)
    ensures
        events.deep_view() == all_events(callbacks@, modules.deep_view(), occasion),
{
    let mut events: Vec<LifecycleEvent> = Vec::new();
    let ghost all = modules.deep_view();
    let mut i: usize = 0;
    assert(events.deep_view() =~= Seq::<LifecycleEventModel>::empty());
    while i < modules.len()
        invariant
            i <= modules.len(),
            all == modules.deep_view(),
            events.deep_view() == all_events(callbacks@, all.take(i as int), occasion),
        decreases modules.len() - i,
    {
        append_events(callbacks, &modules[i], occasion, &mut events);
        proof {
            let longer = all.take(i + 1);
            assert(longer.last() == modules@[i as int]@);
            assert(longer.drop_last() =~= all.take(i as int));
        }
        i += 1;
    }
    assert(all.take(i as int) =~= all);
    events
}

fn events_backward(callbacks: &NameMap<Vec<u64>>, modules: &Vec<String>, occasion: Occasion) -> (events:
    Vec<LifecycleEvent>)
    ensures
        events.deep_view() == all_events(callbacks@, modules.deep_view().reverse(), occasion),
{
    let mut events: Vec<LifecycleEvent> = Vec::new();
    let ghost all = modules.deep_view().reverse();
    let mut left: usize = modules.len();
    assert(events.deep_view() =~= Seq::<LifecycleEventModel>::empty());
    while left > 0
        invariant
            left <= modules.len(),
            all == modules.deep_view().reverse(),
            events.deep_view() == all_events(
                callbacks@,
                all.take(modules.len() - left),
                occasion,
            ),
        decreases left,
    {
        left -= 1;
        append_events(callbacks, &modules[left], occasion, &mut events);
        proof {
            let longer = all.take(modules.len() - left);
            assert(longer.last() == modules@[left as int]@);
            assert(longer.drop_last() =~= all.take(modules.len() - left - 1));
        }
    }
    assert(all.take(modules.len() - left) =~= all);
    events
}

/// The order in which the root and all that it depends on are loaded, and told
/// of processes and threads.
pub fn plan_lifecycle(
    root_module: &str,
    dependencies: &NameMap<Vec<String>>,
    tls_callbacks: &NameMap<Vec<u64>>,
) -> (outcome: AppResult<LifecyclePlan>)
    ensures
        agrees(
            outcome,
            ReasonCode::RcPeParseInvalid,
            match load_order(dependencies@, root_module@) {
                None => None,
                Some(order) => Some(plan_of(tls_callbacks@, order)),
            },
        ),
{
    let root: String = normalize_module_name(root_module);
    let mut order: Vec<String> = Vec::new();
    assert(order.deep_view() =~= Seq::<Seq<char>>::empty());
    match visit_module(&root, dependencies, &mut order) {
        Err(error) => {
            return Err(error);
        },
        Ok(()) => {},
    }
    let process_attach: Vec<LifecycleEvent> = events_forward(
        tls_callbacks,
        &order,
        Occasion::ProcessAttach,
    );
    let thread_start: Vec<LifecycleEvent> = events_forward(
        tls_callbacks,
        &order,
        Occasion::ThreadAttach,
    );
    let thread_end: Vec<LifecycleEvent> = events_backward(
        tls_callbacks,
        &order,
        Occasion::ThreadDetach,
    );
    let process_detach: Vec<LifecycleEvent> = events_backward(
        tls_callbacks,
        &order,
        Occasion::ProcessDetach,
    );
    Ok(
        LifecyclePlan {
            load_order: order,
            process_attach,
            process_detach,
            thread_start,
            thread_end,
        },
    )
}

} // verus!
