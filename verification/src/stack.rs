//! The stack of an instance (documents being edited) and the item stacks of
//! workspaces: entries with increasing positions, the top being the highest; pushes go
//! one above the top.

use vstd::prelude::*;

verus! {

/// One stack entry: a row id, its position and what it holds.
#[derive(Clone, Debug)]
pub struct StackEntry<T> {
    pub id: i64,
    pub position: i32,
    pub item: T,
}

/// A stack. Entries are kept in position order, the top last.
pub struct Stack<T> {
    pub entries: Vec<StackEntry<T>>,
    /// The row id the next entry gets.
    pub next_id: i64,
}

/// The stack's invariant: positions and row ids increase from bottom to top, positions
/// are not negative, and every row id is below the next one.
pub open spec fn stack_wf<T>(entries: Seq<StackEntry<T>>, next_id: i64) -> bool {
    &&& forall|i: int, j: int| 0 <= i < j < entries.len() ==> (#[trigger] entries[i]).position < (#[trigger] entries[j]).position
        && entries[i].id < entries[j].id
    &&& forall|i: int| 0 <= i < entries.len() ==> 0 <= (#[trigger] entries[i]).position && 0 < entries[i].id < next_id
    &&& next_id >= 1
}

/// The position a push takes: one above the top, 0 on an empty stack.
pub open spec fn next_position<T>(entries: Seq<StackEntry<T>>) -> int {
    if entries.len() == 0 { 0 } else { entries.last().position + 1 }
}

/// The stack after a push.
pub open spec fn spec_push<T>(entries: Seq<StackEntry<T>>, next_id: i64, item: T) -> Seq<StackEntry<T>> {
    entries.push(StackEntry { id: next_id, position: next_position(entries) as i32, item })
}

impl<T> Stack<T> {
    pub open spec fn wf(&self) -> bool {
        stack_wf(self.entries@, self.next_id)
    }

    /// An empty stack.
    pub fn new() -> (s: Self)
        ensures
            s.wf(),
            s.entries@.len() == 0,
    {
        Stack { entries: Vec::new(), next_id: 1 }
    }

    /// Push an item one above the top. Returns the entry's position and row id.
    pub fn push(&mut self, item: T) -> (r: (i32, i64))
        requires
            old(self).wf(),
            next_position(old(self).entries@) <= i32::MAX,
            old(self).next_id < i64::MAX,
        ensures
            final(self).wf(),
            r.0 == next_position(old(self).entries@),
            r.1 == old(self).next_id,
            final(self).entries@ == spec_push(old(self).entries@, old(self).next_id, item),
            final(self).next_id == old(self).next_id + 1,
    {
        let pos: i32 = if self.entries.len() == 0 { 0 } else { self.entries[self.entries.len() - 1].position + 1 };
        let id = self.next_id;
        let ghost before = self.entries@;
        self.entries.push(StackEntry { id, position: pos, item });
        self.next_id = self.next_id + 1;
        proof {
            let e = self.entries@;
            assert forall|i: int, j: int| 0 <= i < j < e.len() implies (#[trigger] e[i]).position < (#[trigger] e[j]).position
                && e[i].id < e[j].id by {
                if j == e.len() - 1 {
                    assert(e[i] == before[i]);
                    if i < before.len() - 1 {
                        assert(before[i].position < before[before.len() - 1].position);
                    }
                } else {
                    assert(e[i] == before[i]);
                    assert(e[j] == before[j]);
                }
            }
            assert forall|i: int| 0 <= i < e.len() implies 0 <= (#[trigger] e[i]).position && 0 < e[i].id < self.next_id by {
                if i < before.len() {
                    assert(e[i] == before[i]);
                }
            }
        }
        (pos, id)
    }

    /// The top item, if any.
    pub fn peek(&self) -> (r: Option<&T>)
        ensures
            self.entries@.len() == 0 ==> r is None,
            self.entries@.len() > 0 ==> r == Some(&self.entries@.last().item),
    {
        if self.entries.len() == 0 {
            None
        } else {
            Some(&self.entries[self.entries.len() - 1].item)
        }
    }

    /// Remove the top entry and return its item; `None` on an empty stack.
    pub fn pop(&mut self) -> (r: Option<T>)
        requires
            old(self).wf(),
        ensures
            final(self).wf(),
            final(self).next_id == old(self).next_id,
            old(self).entries@.len() == 0 ==> r is None && final(self).entries@ == old(self).entries@,
            old(self).entries@.len() > 0 ==> r == Some(old(self).entries@.last().item)
                && final(self).entries@ == old(self).entries@.drop_last(),
    {
        match self.entries.pop() {
            Some(e) => Some(e.item),
            None => None,
        }
    }

    /// Replace the item on top; `false` on an empty stack.
    pub fn replace_top(&mut self, item: T) -> (replaced: bool)
        requires
            old(self).wf(),
        ensures
            final(self).wf(),
            final(self).next_id == old(self).next_id,
            replaced == (old(self).entries@.len() > 0),
            !replaced ==> final(self).entries@ == old(self).entries@,
            replaced ==> final(self).entries@ == old(self).entries@.drop_last().push(
                StackEntry { item, ..old(self).entries@.last() }),
    {
        match self.entries.pop() {
            Some(e) => {
                let ghost before = old(self).entries@;
                self.entries.push(StackEntry { id: e.id, position: e.position, item });
                proof {
                    let s = self.entries@;
                    assert forall|i: int, j: int| 0 <= i < j < s.len() implies (#[trigger] s[i]).position < (#[trigger] s[j]).position
                        && s[i].id < s[j].id by {
                        assert(s[i].position == before[i].position && s[i].id == before[i].id);
                        assert(s[j].position == before[j].position && s[j].id == before[j].id);
                    }
                    assert forall|i: int| 0 <= i < s.len() implies 0 <= (#[trigger] s[i]).position && 0 < s[i].id < self.next_id by {
                        assert(s[i].position == before[i].position && s[i].id == before[i].id);
                    }
                }
                true
            },
            None => false,
        }
    }

    /// The number of entries.
    pub fn depth(&self) -> (n: usize)
        ensures
            n == self.entries@.len(),
    {
        self.entries.len()
    }

    /// Remove every entry; returns how many there were.
    pub fn clear(&mut self) -> (n: usize)
        requires
            old(self).wf(),
        ensures
            final(self).wf(),
            n == old(self).entries@.len(),
            final(self).entries@.len() == 0,
            final(self).next_id == old(self).next_id,
    {
        let n = self.entries.len();
        self.entries.clear();
        n
    }

    /// Remove the entry with the given row id; `false` when there is none.
    pub fn drop_by_id(&mut self, id: i64) -> (dropped: bool)
        requires
            old(self).wf(),
        ensures
            final(self).wf(),
            final(self).next_id == old(self).next_id,
            dropped == exists|k: int| 0 <= k < old(self).entries@.len() && (#[trigger] old(self).entries@[k]).id == id,
            !dropped ==> final(self).entries@ == old(self).entries@,
            dropped ==> exists|k: int| 0 <= k < old(self).entries@.len() && old(self).entries@[k].id == id
                && final(self).entries@ == old(self).entries@.remove(k),
    {
        let mut i: usize = 0;
        while i < self.entries.len()
            invariant
                i <= self.entries@.len(),
                self.entries@ == old(self).entries@,
                self.next_id == old(self).next_id,
                stack_wf(old(self).entries@, old(self).next_id),
                forall|k: int| 0 <= k < i ==> (#[trigger] self.entries@[k]).id != id,
            decreases self.entries@.len() - i,
        {
            if self.entries[i].id == id {
                let ghost before = self.entries@;
                let _removed = self.entries.remove(i);
                proof {
                    let s = self.entries@;
                    assert(s =~= before.remove(i as int));
                    assert forall|a: int, b: int| 0 <= a < b < s.len() implies (#[trigger] s[a]).position < (#[trigger] s[b]).position
                        && s[a].id < s[b].id by {
                        let a0 = if a < i { a } else { a + 1 };
                        let b0 = if b < i { b } else { b + 1 };
                        assert(s[a] == before[a0]);
                        assert(s[b] == before[b0]);
                    }
                    assert forall|a: int| 0 <= a < s.len() implies 0 <= (#[trigger] s[a]).position && 0 < s[a].id < self.next_id by {
                        let a0 = if a < i { a } else { a + 1 };
                        assert(s[a] == before[a0]);
                    }
                }
                return true;
            }
            i = i + 1;
        }
        false
    }

    /// The position of the entry with the given row id.
    pub fn find_id(&self, id: i64) -> (r: Option<usize>)
        ensures
            r matches Some(k) ==> k < self.entries@.len() && self.entries@[k as int].id == id,
            r is None ==> forall|k: int| 0 <= k < self.entries@.len() ==> (#[trigger] self.entries@[k]).id != id,
    {
        let mut i: usize = 0;
        while i < self.entries.len()
            invariant
                i <= self.entries@.len(),
                forall|k: int| 0 <= k < i ==> (#[trigger] self.entries@[k]).id != id,
            decreases self.entries@.len() - i,
        {
            if self.entries[i].id == id {
                return Some(i);
            }
            i = i + 1;
        }
        None
    }
}

/// The entries from top to bottom.
pub open spec fn top_down<T>(entries: Seq<StackEntry<T>>) -> Seq<StackEntry<T>> {
    entries.reverse()
}

/// Pushing an item and popping gives the item back and leaves the stack as it was;
/// the pushed entry is the top, one above the previous top.
pub proof fn law_push_then_pop<T>(entries: Seq<StackEntry<T>>, next_id: i64, item: T)
    requires
        stack_wf(entries, next_id),
        next_position(entries) <= i32::MAX,
    ensures
        spec_push(entries, next_id, item).last().item == item,
        spec_push(entries, next_id, item).drop_last() == entries,
        spec_push(entries, next_id, item).len() == entries.len() + 1,
        entries.len() > 0 ==> spec_push(entries, next_id, item).last().position == entries.last().position + 1,
{
    assert(spec_push(entries, next_id, item).drop_last() =~= entries);
}

/// A document on the instance stack: its label (if any) and content.
#[derive(Clone, Debug)]
pub struct Document {
    pub label: Option<String>,
    pub content: String,
}

/// The preview of a document in a listing: newlines as spaces, at most 60 characters.
pub open spec fn preview(content: Seq<char>) -> Seq<char> {
    let flat = content.map_values(|c: char| if c == '\n' { ' ' } else { c });
    if flat.len() > 60 { flat.take(60) } else { flat }
}

/// One line of a stack listing.
#[derive(Clone, Debug)]
pub struct ListedEntry {
    pub position: i32,
    pub label: String,
    pub preview: String,
}

/// The listing of the instance stack, top first: each entry's position, label (empty
/// when none) and preview.
pub fn stack_list(s: &Stack<Document>) -> (out: Vec<ListedEntry>)
    ensures
        out@.len() == s.entries@.len(),
        forall|i: int| 0 <= i < out@.len() ==> {
            let e = #[trigger] s.entries@[s.entries@.len() - 1 - i];
            &&& out@[i].position == e.position
            &&& out@[i].label@ == (match e.item.label { Some(l) => l@, None => Seq::<char>::empty() })
            &&& out@[i].preview@ == preview(e.item.content@)
        },
{
    let n = s.entries.len();
    let mut out: Vec<ListedEntry> = Vec::new();
    let mut k: usize = 0;
    while k < n
        invariant
            n == s.entries@.len(),
            k <= n,
            out@.len() == k,
            forall|i: int| 0 <= i < k ==> {
                let e = #[trigger] s.entries@[s.entries@.len() - 1 - i];
                &&& out@[i].position == e.position
                &&& out@[i].label@ == (match e.item.label { Some(l) => l@, None => Seq::<char>::empty() })
                &&& out@[i].preview@ == preview(e.item.content@)
            },
        decreases n - k,
    {
        let e = &s.entries[n - 1 - k];
        let label = match &e.item.label {
            Some(l) => l.clone(),
            None => String::new(),
        };
        let pv = preview_of(e.item.content.as_str());
        out.push(ListedEntry { position: e.position, label, preview: pv });
        proof {
            assert forall|i: int| 0 <= i < k + 1 implies {
                let e = #[trigger] s.entries@[s.entries@.len() - 1 - i];
                &&& out@[i].position == e.position
                &&& out@[i].label@ == (match e.item.label { Some(l) => l@, None => Seq::<char>::empty() })
                &&& out@[i].preview@ == preview(e.item.content@)
            } by {
                if i < k {
                    assert(out@[i] == out@.drop_last()[i]);
                }
            }
        }
        k = k + 1;
    }
    out
}

/// The preview of a content.
pub fn preview_of(content: &str) -> (p: String)
    ensures
        p@ == preview(content@),
{
    let cs = crate::text::chars_of(content);
    let mut p = String::new();
    let mut i: usize = 0;
    let ghost flat = content@.map_values(|c: char| if c == '\n' { ' ' } else { c });
    while i < cs.len() && i < 60
        invariant
            i <= cs@.len(),
            i <= 60,
            cs@ == content@,
            flat == content@.map_values(|c: char| if c == '\n' { ' ' } else { c }),
            p@ == flat.take(i as int),
        decreases cs@.len() - i,
    {
        let c = if cs[i] == '\n' { ' ' } else { cs[i] };
        crate::text::push_char(&mut p, c);
        assert(flat.take(i + 1) =~= flat.take(i as int).push(c));
        i = i + 1;
    }
    assert(flat.take(flat.len() as int) =~= flat);
    p
}

/// An item of a workspace stack: a kind, what it refers to, and its metadata as JSON text.
#[derive(Clone, Debug)]
pub struct WorkspaceItem {
    pub kind: String,
    pub ref_id: String,
    pub meta: String,
}

pub open spec fn item_view(w: WorkspaceItem) -> (Seq<char>, Seq<char>, Seq<char>) {
    (w.kind@, w.ref_id@, w.meta@)
}

/// Copy the entry with the given row id to the top of a workspace stack. Returns the new
/// row id, or `None` when there is no such entry.
pub fn dup_by_id(s: &mut Stack<WorkspaceItem>, id: i64) -> (r: Option<i64>)
    requires
        old(s).wf(),
        next_position(old(s).entries@) <= i32::MAX,
        old(s).next_id < i64::MAX,
    ensures
        final(s).wf(),
        r is None <==> forall|k: int| 0 <= k < old(s).entries@.len() ==> (#[trigger] old(s).entries@[k]).id != id,
        r is None ==> final(s).entries@ == old(s).entries@ && final(s).next_id == old(s).next_id,
        r matches Some(new_id) ==> {
            &&& new_id == old(s).next_id
            &&& final(s).entries@.len() == old(s).entries@.len() + 1
            &&& final(s).entries@.drop_last() == old(s).entries@
            &&& final(s).entries@.last().id == new_id
            &&& final(s).entries@.last().position == next_position(old(s).entries@)
            &&& exists|k: int| 0 <= k < old(s).entries@.len() && old(s).entries@[k].id == id
                && item_view(final(s).entries@.last().item) == item_view(old(s).entries@[k].item)
        },
{
    let k = match s.find_id(id) {
        Some(k) => k,
        None => return None,
    };
    let copy = WorkspaceItem {
        kind: s.entries[k].item.kind.clone(),
        ref_id: s.entries[k].item.ref_id.clone(),
        meta: s.entries[k].item.meta.clone(),
    };
    let ghost src = s.entries@[k as int];
    let (_pos, new_id) = s.push(copy);
    assert(s.entries@.drop_last() =~= old(s).entries@);
    Some(new_id)
}

} // verus!
