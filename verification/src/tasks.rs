//! The timers, or the threads, that the windows of an application have
//! started: by window, then by task id.
use std::collections::HashMap;
use vstd::prelude::*;

verus! {

broadcast use vstd::std_specs::hash::group_hash_axioms;

/// `m` with the pairs written into it in order: a later pair replaces an
/// earlier one with the same id.
pub open spec fn overlay<T>(m: Map<usize, T>, pairs: Seq<(usize, T)>) -> Map<usize, T>
    decreases pairs.len(),
{
    if pairs.len() == 0 {
        m
    } else {
        overlay(m, pairs.drop_last()).insert(pairs.last().0, pairs.last().1)
    }
}

/// Tasks of type `T` by window and by task id. A window that once had
/// tasks merged in keeps its entry, even when it holds no task.
pub struct WindowTasks<T> {
    tasks: HashMap<usize, HashMap<usize, T>>,
}

impl<T> View for WindowTasks<T> {
    type V = Map<usize, Map<usize, T>>;

    closed spec fn view(&self) -> Map<usize, Map<usize, T>> {
        Map::new(|w: usize| self.tasks@.contains_key(w), |w: usize| self.tasks@[w]@)
    }
}

impl<T> WindowTasks<T> {
    /// No window has an entry.
    pub fn new() -> (res: Self)
        ensures
            res@ == Map::<usize, Map<usize, T>>::empty(),
    {
        let res = WindowTasks { tasks: HashMap::new() };
        proof {
            assert(res@ =~= Map::<usize, Map<usize, T>>::empty());
        }
        res
    }

    /// Adds tasks that a window started to those it has: the window gets an
    /// entry if it had none, and a new task replaces one with the same id.
    pub fn merge(&mut self, window: usize, new_tasks: Vec<(usize, T)>)
        ensures
            final(self)@ == old(self)@.insert(
                window,
                overlay(
                    if old(self)@.contains_key(window) {
                        old(self)@[window]
                    } else {
                        Map::empty()
                    },
                    new_tasks@,
                ),
            ),
    {
        let ghost old_view = self@;
        let ghost old_tasks = self.tasks@;
        let ghost base = if old_view.contains_key(window) {
            old_view[window]
        } else {
            Map::<usize, T>::empty()
        };
        let mut inner: HashMap<usize, T> = match self.tasks.remove(&window) {
            Some(m) => m,
            None => HashMap::new(),
        };
        let ghost ps = new_tasks@;
        let n = new_tasks.len();
        let mut rest = new_tasks;
        let mut pending: Vec<(usize, T)> = Vec::new();
        while rest.len() > 0
            invariant
                ps.len() == n,
                rest@ == ps.take(rest@.len() as int),
                pending@.len() + rest@.len() == n,
                forall|j: int| 0 <= j < pending@.len() ==> #[trigger] pending@[j] == ps[n - 1 - j],
            decreases rest@.len(),
        {
            let p = rest.pop().unwrap();
            pending.push(p);
            proof {
                assert(rest@ =~= ps.take(rest@.len() as int));
            }
        }
        let mut k: usize = 0;
        proof {
            assert(ps.take(0) =~= Seq::<(usize, T)>::empty());
            assert(inner@ =~= base);
        }
        while k < n
            invariant
                ps.len() == n,
                0 <= k <= n,
                pending@.len() == n - k,
                forall|j: int| 0 <= j < pending@.len() ==> #[trigger] pending@[j] == ps[n - 1 - j],
                inner@ == overlay(base, ps.take(k as int)),
            decreases n - k,
        {
            let (id, task) = pending.pop().unwrap();
            proof {
                assert(ps[k as int] == (id, task));
                assert(ps.take(k + 1).drop_last() =~= ps.take(k as int));
            }
            inner.insert(id, task);
            k = k + 1;
        }
        proof {
            assert(ps.take(n as int) =~= ps);
        }
        self.tasks.insert(window, inner);
        proof {
            assert(self@ =~= old_view.insert(window, overlay(base, ps)));
        }
    }

    /// Whether some window has an entry.
    pub fn has_entries(&self) -> (res: bool)
        ensures
            res == (self@.dom().len() > 0),
    {
        proof {
            assert(self@.dom() =~= self.tasks@.dom());
        }
        !self.tasks.is_empty()
    }

    /// The tasks of a window, by id, when it has an entry.
    pub fn window_tasks(&self, window: usize) -> (res: Option<&HashMap<usize, T>>)
        ensures
            self@.contains_key(window) <==> res is Some,
            res matches Some(m) ==> m@ == self@[window],
    {
        self.tasks.get(&window)
    }

    /// All entries, by window.
    pub fn entries(&self) -> (res: &HashMap<usize, HashMap<usize, T>>)
        ensures
            res@.dom() == self@.dom(),
            forall|w: usize| #[trigger] res@.contains_key(w) ==> res@[w]@ == self@[w],
    {
        proof {
            assert(self.tasks@.dom() =~= self@.dom());
        }
        &self.tasks
    }
}

/// Law: merging the tasks `a` and then the tasks `b` into a window gives
/// what merging `a` followed by `b` at once gives.
pub proof fn law_merge_twice<T>(m: Map<usize, T>, a: Seq<(usize, T)>, b: Seq<(usize, T)>)
    ensures
        overlay(overlay(m, a), b) == overlay(m, a + b),
    decreases b.len(),
{
    if b.len() == 0 {
        assert(a + b =~= a);
    } else {
        law_merge_twice(m, a, b.drop_last());
        assert((a + b).drop_last() =~= a + b.drop_last());
        assert((a + b).last() == b.last());
    }
}

/// Law: merging never removes a window's entry nor a task: every task a
/// window had is still there, unless a new task took its id.
pub proof fn law_merge_keeps_tasks<T>(m: Map<usize, T>, pairs: Seq<(usize, T)>, id: usize)
    requires
        m.contains_key(id),
        forall|j: int| 0 <= j < pairs.len() ==> (#[trigger] pairs[j]).0 != id,
    ensures
        overlay(m, pairs).contains_key(id),
        overlay(m, pairs)[id] == m[id],
    decreases pairs.len(),
{
    if pairs.len() > 0 {
        law_merge_keeps_tasks(m, pairs.drop_last(), id);
        assert(pairs.last() == pairs[pairs.len() - 1]);
    }
}

} // verus!
