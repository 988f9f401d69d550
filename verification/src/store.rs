//! The in-memory store: two keyed collections, one of tasks and one of
//! users, each modelled in specifications as a `Map` from key to record.

use vstd::prelude::*;

verus! {

/// A task record: a caller-assigned id, a display name and a completion flag.
pub struct Task {
    pub id: u64,
    pub name: String,
    pub complete: bool,
}

/// The mathematical value of a [`Task`].
#[verifier::ext_equal]
pub ghost struct TaskView {
    pub id: u64,
    pub name: Seq<char>,
    pub complete: bool,
}

impl View for Task {
    type V = TaskView;

    open spec fn view(&self) -> TaskView {
        TaskView { id: self.id, name: self.name@, complete: self.complete }
    }
}

/// A user record: an id, a login name and a password compared verbatim.
pub struct User {
    pub id: u64,
    pub name: String,
    pub password: String,
}

/// The mathematical value of a [`User`].
#[verifier::ext_equal]
pub ghost struct UserView {
    pub id: u64,
    pub name: Seq<char>,
    pub password: Seq<char>,
}

impl View for User {
    type V = UserView;

    open spec fn view(&self) -> UserView {
        UserView { id: self.id, name: self.name@, password: self.password@ }
    }
}

/// One keyed task entry; the key is independent of the record's own id field.
pub struct TaskEntry {
    pub key: u64,
    pub task: Task,
}

/// One keyed user entry.
pub struct UserEntry {
    pub key: u64,
    pub user: User,
}

/// The store: the authoritative holder of the task and user collections.
pub struct Store {
    pub tasks: Vec<TaskEntry>,
    pub users: Vec<UserEntry>,
}

/// The mathematical value of a [`Store`]: two association sequences.
#[verifier::ext_equal]
pub ghost struct StoreView {
    pub tasks: Seq<(u64, TaskView)>,
    pub users: Seq<(u64, UserView)>,
}

/// No key occurs twice in an association sequence.
pub open spec fn unique_keys<V>(s: Seq<(u64, V)>) -> bool {
    forall|i: int, j: int| 0 <= i < j < s.len() ==> s[i].0 != s[j].0
}

/// The mapping an association sequence stands for; a later entry for a key
/// shadows an earlier one, so on unique-key sequences it is the evident map.
pub open spec fn map_of<V>(s: Seq<(u64, V)>) -> Map<u64, V>
    decreases s.len(),
{
    if s.len() == 0 {
        Map::empty()
    } else {
        map_of(s.drop_last()).insert(s.last().0, s.last().1)
    }
}

impl StoreView {
    /// Both collections are keyed uniquely.
    pub open spec fn wf(self) -> bool {
        unique_keys(self.tasks) && unique_keys(self.users)
    }

    /// The task mapping.
    pub open spec fn task_map(self) -> Map<u64, TaskView> {
        map_of(self.tasks)
    }

    /// The user mapping.
    pub open spec fn user_map(self) -> Map<u64, UserView> {
        map_of(self.users)
    }
}

/// The keyed view of a task entry sequence.
pub open spec fn tasks_view(es: Seq<TaskEntry>) -> Seq<(u64, TaskView)> {
    es.map_values(|e: TaskEntry| (e.key, e.task@))
}

/// The keyed view of a user entry sequence.
pub open spec fn users_view(es: Seq<UserEntry>) -> Seq<(u64, UserView)> {
    es.map_values(|e: UserEntry| (e.key, e.user@))
}

impl View for Store {
    type V = StoreView;

    open spec fn view(&self) -> StoreView {
        StoreView { tasks: tasks_view(self.tasks@), users: users_view(self.users@) }
    }
}

/// Character-by-character string equality, proved equivalent to equality
/// of the views.
pub fn str_eq(a: &str, b: &str) -> (r: bool)
    ensures
        r == (a@ == b@),
{
    let la = a.unicode_len();
    let lb = b.unicode_len();
    if la != lb {
        return false;
    }
    let mut i: usize = 0;
    while i < la
        invariant
            la == a@.len(),
            la == b@.len(),
            i <= la,
            forall|j: int| 0 <= j < i ==> a@[j] == b@[j],
        decreases la - i,
    {
        if a.get_char(i) != b.get_char(i) {
            return false;
        }
        i = i + 1;
    }
    proof {
        assert(a@ =~= b@);
    }
    true
}

/// The first user entry, in collection order, whose name is `name`.
pub open spec fn find_user(s: Seq<(u64, UserView)>, name: Seq<char>) -> Option<UserView>
    decreases s.len(),
{
    if s.len() == 0 {
        None
    } else if s[0].1.name == name {
        Some(s[0].1)
    } else {
        find_user(s.drop_first(), name)
    }
}

/// A key absent from every entry is absent from the mapping.
proof fn lemma_map_of_absent<V>(s: Seq<(u64, V)>, k: u64)
    requires
        forall|i: int| 0 <= i < s.len() ==> s[i].0 != k,
    ensures
        !map_of(s).dom().contains(k),
    decreases s.len(),
{
    if s.len() > 0 {
        lemma_map_of_absent(s.drop_last(), k);
    }
}

/// An entry's key is in the mapping, bound to that entry's value.
proof fn lemma_map_of_found<V>(s: Seq<(u64, V)>, i: int, k: u64)
    requires
        unique_keys(s),
        0 <= i < s.len(),
        s[i].0 == k,
    ensures
        map_of(s).dom().contains(k),
        map_of(s)[k] == s[i].1,
    decreases s.len(),
{
    if i < s.len() - 1 {
        lemma_map_of_found(s.drop_last(), i, k);
    }
}

/// Replacing the entry that holds a key acts as a map insert at that key.
proof fn lemma_map_of_update<V>(s: Seq<(u64, V)>, i: int, k: u64, v: V)
    requires
        unique_keys(s),
        0 <= i < s.len(),
        s[i].0 == k,
    ensures
        unique_keys(s.update(i, (k, v))),
        map_of(s.update(i, (k, v))) == map_of(s).insert(k, v),
    decreases s.len(),
{
    let t = s.update(i, (k, v));
    if i == s.len() - 1 {
        assert(t.drop_last() =~= s.drop_last());
        assert(map_of(t) =~= map_of(s).insert(k, v));
    } else {
        lemma_map_of_update(s.drop_last(), i, k, v);
        assert(t.drop_last() =~= s.drop_last().update(i, (k, v)));
        assert(map_of(t) =~= map_of(s).insert(k, v));
    }
}

/// Removing the entry that holds a key acts as a map remove of that key.
proof fn lemma_map_of_remove<V>(s: Seq<(u64, V)>, i: int, k: u64)
    requires
        unique_keys(s),
        0 <= i < s.len(),
        s[i].0 == k,
    ensures
        unique_keys(s.remove(i)),
        map_of(s.remove(i)) == map_of(s).remove(k),
    decreases s.len(),
{
    if i == s.len() - 1 {
        assert(s.remove(i) =~= s.drop_last());
        lemma_map_of_absent(s.drop_last(), k);
        assert(map_of(s.remove(i)) =~= map_of(s).remove(k));
    } else {
        lemma_map_of_remove(s.drop_last(), i, k);
        assert(s.remove(i).drop_last() =~= s.drop_last().remove(i));
        assert(s.remove(i).last() == s.last());
        assert(map_of(s.remove(i)) =~= map_of(s).remove(k));
    }
}

/// On unique keys, the mapping has exactly one element per entry.
pub proof fn lemma_map_of_dom_len<V>(s: Seq<(u64, V)>)
    requires
        unique_keys(s),
    ensures
        map_of(s).dom().finite(),
        map_of(s).dom().len() == s.len(),
    decreases s.len(),
{
    if s.len() > 0 {
        lemma_map_of_dom_len(s.drop_last());
        lemma_map_of_absent(s.drop_last(), s.last().0);
    }
}

impl Store {
    /// Returns the empty store: both mappings empty. Never fails.
    pub fn new() -> (r: Store)
        ensures
            r@.wf(),
            r@.tasks.len() == 0,
            r@.users.len() == 0,
            r@.task_map() == Map::<u64, TaskView>::empty(),
            r@.user_map() == Map::<u64, UserView>::empty(),
    {
        let r = Store { tasks: Vec::new(), users: Vec::new() };
        proof {
            assert(r@.tasks =~= Seq::<(u64, TaskView)>::empty());
            assert(r@.users =~= Seq::<(u64, UserView)>::empty());
        }
        r
    }

    /// Position of the entry holding `key` in the task collection, if any.
    pub(crate) fn task_index(tasks: &Vec<TaskEntry>, key: u64) -> (r: Option<usize>)
        ensures
            match r {
                Some(i) => i < tasks@.len() && tasks@[i as int].key == key,
                None => forall|j: int| 0 <= j < tasks@.len() ==> tasks@[j].key != key,
            },
    {
        let mut i: usize = 0;
        while i < tasks.len()
            invariant
                i <= tasks@.len(),
                forall|j: int| 0 <= j < i ==> tasks@[j].key != key,
            decreases tasks@.len() - i,
        {
            if tasks[i].key == key {
                return Some(i);
            }
            i = i + 1;
        }
        None
    }

    /// Position of the entry holding `key` in the user collection, if any.
    pub(crate) fn user_index(users: &Vec<UserEntry>, key: u64) -> (r: Option<usize>)
        ensures
            match r {
                Some(i) => i < users@.len() && users@[i as int].key == key,
                None => forall|j: int| 0 <= j < users@.len() ==> users@[j].key != key,
            },
    {
        let mut i: usize = 0;
        while i < users.len()
            invariant
                i <= users@.len(),
                forall|j: int| 0 <= j < i ==> users@[j].key != key,
            decreases users@.len() - i,
        {
            if users[i].key == key {
                return Some(i);
            }
            i = i + 1;
        }
        None
    }

    /// Inserts or replaces the task at `key`; an existing record at the same
    /// key is overwritten silently (last write wins). Cannot fail.
    pub fn insert(&mut self, key: u64, task: Task)
        requires
            old(self)@.wf(),
        ensures
            final(self)@.wf(),
            final(self)@.task_map() == old(self)@.task_map().insert(key, task@),
            final(self)@.users == old(self)@.users,
            old(self)@.task_map().dom().contains(key) ==> final(self)@.tasks.len() == old(
                self,
            )@.tasks.len(),
            !old(self)@.task_map().dom().contains(key) ==> final(self)@.tasks == old(
                self,
            )@.tasks.push((key, task@)),
    {
        let ghost pre = self@.tasks;
        let ghost tv = task@;
        match Self::task_index(&self.tasks, key) {
            Some(i) => {
                self.tasks.set(i, TaskEntry { key, task });
                proof {
                    assert(self@.tasks =~= pre.update(i as int, (key, tv)));
                    lemma_map_of_found(pre, i as int, key);
                    lemma_map_of_update(pre, i as int, key, tv);
                    assert(self@.users =~= old(self)@.users);
                }
            },
            None => {
                self.tasks.push(TaskEntry { key, task });
                proof {
                    assert(self@.tasks =~= pre.push((key, tv)));
                    lemma_map_of_absent(pre, key);
                    assert(self@.tasks.drop_last() =~= pre);
                    assert(self@.users =~= old(self)@.users);
                }
            },
        }
    }

    /// Identical semantics to [`Store::insert`]: updating an absent key
    /// silently creates the record.
    pub fn update(&mut self, key: u64, task: Task)
        requires
            old(self)@.wf(),
        ensures
            final(self)@.wf(),
            final(self)@.task_map() == old(self)@.task_map().insert(key, task@),
            final(self)@.users == old(self)@.users,
    {
        self.insert(key, task);
    }

    /// Returns the task at `key`, or `None` where the key is absent.
    pub fn get(&self, key: u64) -> (r: Option<&Task>)
        requires
            self@.wf(),
        ensures
            match r {
                Some(t) => self@.task_map().dom().contains(key) && t@ == self@.task_map()[key],
                None => !self@.task_map().dom().contains(key),
            },
    {
        match Self::task_index(&self.tasks, key) {
            Some(i) => {
                proof {
                    lemma_map_of_found(self@.tasks, i as int, key);
                }
                Some(&self.tasks[i].task)
            },
            None => {
                proof {
                    lemma_map_of_absent(self@.tasks, key);
                }
                None
            },
        }
    }

    /// Returns every task record, in the collection's own order; callers
    /// must not rely on any particular order.
    pub fn get_all(&self) -> (r: Vec<&Task>)
        ensures
            r@.len() == self@.tasks.len(),
            forall|i: int| 0 <= i < r@.len() ==> r@[i]@ == self@.tasks[i].1,
    {
        let mut r: Vec<&Task> = Vec::new();
        let mut i: usize = 0;
        while i < self.tasks.len()
            invariant
                i <= self@.tasks.len(),
                r@.len() == i,
                forall|j: int| 0 <= j < i ==> r@[j]@ == self@.tasks[j].1,
            decreases self@.tasks.len() - i,
        {
            r.push(&self.tasks[i].task);
            i = i + 1;
        }
        r
    }

    /// Removes the task at `key`; a no-op, not an error, where the key is
    /// absent, in which case the store is left exactly as it was.
    pub fn delete(&mut self, key: u64)
        requires
            old(self)@.wf(),
        ensures
            final(self)@.wf(),
            final(self)@.task_map() == old(self)@.task_map().remove(key),
            final(self)@.users == old(self)@.users,
            !old(self)@.task_map().dom().contains(key) ==> final(self)@ == old(self)@,
    {
        let ghost pre = self@.tasks;
        match Self::task_index(&self.tasks, key) {
            Some(i) => {
                self.tasks.remove(i);
                proof {
                    assert(self@.tasks =~= pre.remove(i as int));
                    lemma_map_of_found(pre, i as int, key);
                    lemma_map_of_remove(pre, i as int, key);
                    assert(self@.users =~= old(self)@.users);
                }
            },
            None => {
                proof {
                    lemma_map_of_absent(pre, key);
                    assert(self@.task_map() =~= old(self)@.task_map().remove(key));
                }
            },
        }
    }

    /// Inserts or replaces the user at `key`, with the same overwrite
    /// semantics as task insertion.
    pub fn insert_user(&mut self, key: u64, user: User)
        requires
            old(self)@.wf(),
        ensures
            final(self)@.wf(),
            final(self)@.user_map() == old(self)@.user_map().insert(key, user@),
            final(self)@.tasks == old(self)@.tasks,
            !old(self)@.user_map().dom().contains(key) ==> final(self)@.users == old(
                self,
            )@.users.push((key, user@)),
    {
        let ghost pre = self@.users;
        let ghost uv = user@;
        match Self::user_index(&self.users, key) {
            Some(i) => {
                self.users.set(i, UserEntry { key, user });
                proof {
                    assert(self@.users =~= pre.update(i as int, (key, uv)));
                    lemma_map_of_found(pre, i as int, key);
                    lemma_map_of_update(pre, i as int, key, uv);
                    assert(self@.tasks =~= old(self)@.tasks);
                }
            },
            None => {
                self.users.push(UserEntry { key, user });
                proof {
                    assert(self@.users =~= pre.push((key, uv)));
                    lemma_map_of_absent(pre, key);
                    assert(self@.users.drop_last() =~= pre);
                    assert(self@.tasks =~= old(self)@.tasks);
                }
            },
        }
    }

    /// Linear scan of the user collection for the first record whose name
    /// matches; `None` where no name matches.
    pub fn get_user_by_name(&self, username: &str) -> (r: Option<&User>)
        ensures
            match r {
                Some(u) => find_user(self@.users, username@) == Some(u@),
                None => find_user(self@.users, username@) is None,
            },
    {
        let mut i: usize = 0;
        proof {
            assert(self@.users.skip(0) =~= self@.users);
        }
        while i < self.users.len()
            invariant
                i <= self@.users.len(),
                find_user(self@.users.skip(i as int), username@) == find_user(
                    self@.users,
                    username@,
                ),
            decreases self@.users.len() - i,
        {
            proof {
                assert(self@.users.skip(i as int)[0] == self@.users[i as int]);
                assert(self@.users.skip(i as int).drop_first() =~= self@.users.skip(i + 1));
            }
            if str_eq(self.users[i].user.name.as_str(), username) {
                return Some(&self.users[i].user);
            }
            i = i + 1;
        }
        proof {
            assert(self@.users.skip(i as int).len() == 0);
        }
        None
    }

    /// True exactly when some user bears `username` (first match in
    /// collection order) and that record's password equals `password`
    /// verbatim.
    pub fn check_login(&self, username: &str, password: &str) -> (r: bool)
        ensures
            r == match find_user(self@.users, username@) {
                Some(u) => u.password == password@,
                None => false,
            },
    {
        match self.get_user_by_name(username) {
            Some(u) => str_eq(u.password.as_str(), password),
            None => false,
        }
    }
}

} // verus!
