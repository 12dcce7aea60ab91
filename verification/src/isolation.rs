//! Owners are kept apart: what one owner's requests and walks can reach of
//! what another owner has in the store. Nothing.

use crate::cascade::{is_run, store_after, walk_after};
use crate::create::{CreateStepView, FrameView, WalkView};
use crate::delete::{DeleteStepView, DeleteView};
use crate::model::{Oid, TreeView};
use crate::plan::PlanView;
use crate::planting::{created_after, grown_after, is_create_run};
use crate::protocol::{ReplyView, RequestView};
use crate::store::StoreState;
use vstd::prelude::*;

verus! {

/// Owners are kept apart. A request made for one owner returns nothing that
/// belongs to another owner `a`, changes and removes nothing of `a`, and
/// adds nothing to what `a` has: whatever its filter, its update or the
/// store's answer.
pub proof fn lemma_owners_are_kept_apart(
    store: StoreState,
    request: RequestView,
    reply: ReplyView,
    after: StoreState,
    a: Oid,
)
    requires
        store.answers(request, reply, after),
        request.owner() is Some,
        request.owner() != Some(a),
    ensures
        reply matches ReplyView::Files(found) ==> forall|i: int|
            0 <= i < found.len() ==> (#[trigger] found[i]).user_id != Some(a),
        reply matches ReplyView::Folders(found) ==> forall|i: int|
            0 <= i < found.len() ==> (#[trigger] found[i]).user_id != Some(a),
        forall|id: Oid|
            store.files.dom().contains(id) && (#[trigger] store.files[id]).user_id == Some(a)
                ==> after.files.dom().contains(id) && after.files[id] == store.files[id],
        forall|id: Oid|
            store.folders.dom().contains(id) && (#[trigger] store.folders[id]).user_id == Some(a)
                ==> after.folders.dom().contains(id) && after.folders[id] == store.folders[id],
        forall|id: Oid|
            after.files.dom().contains(id) && (#[trigger] after.files[id]).user_id == Some(a)
                ==> store.files.dom().contains(id),
        forall|id: Oid|
            after.folders.dom().contains(id) && (#[trigger] after.folders[id]).user_id == Some(a)
                ==> store.folders.dom().contains(id),
{
}

/// Every request of a walk that removes folders is made for the owner of the
/// walk.
pub proof fn lemma_delete_asks_for_its_owner(walk: DeleteView)
    ensures
        walk.wants() matches DeleteStepView::Ask(request) ==> request.owner() == Some(walk.owner),
{
}

impl PlanView {
    /// Whether every folder and every file of the plan is marked as
    /// belonging to `owner`.
    pub open spec fn owned_by(self, owner: Oid) -> bool
        decreases self,
    {
        &&& self.record.user_id == Some(owner)
        &&& forall|i: int|
            0 <= i < self.files.len() ==> (#[trigger] self.files[i]).user_id == Some(owner)
        &&& forall|i: int|
            0 <= i < self.folders.len() ==> (#[trigger] self.folders[i]).owned_by(owner)
    }
}

impl FrameView {
    /// Whether the folder being filled, and all that is still to be stored
    /// in it, is marked as belonging to `owner`.
    pub open spec fn owned_by(self, owner: Oid) -> bool {
        &&& self.record.user_id == Some(owner)
        &&& forall|i: int|
            0 <= i < self.files.len() ==> (#[trigger] self.files[i]).user_id == Some(owner)
        &&& forall|i: int|
            0 <= i < self.folders.len() ==> (#[trigger] self.folders[i]).owned_by(owner)
    }
}

impl WalkView {
    /// Whether all that the walk has yet to store is marked as belonging to
    /// the owner of the walk.
    pub open spec fn owned(self) -> bool {
        forall|i: int| 0 <= i < self.stack.len() ==> (#[trigger] self.stack[i]).owned_by(self.owner)
    }
}

/// A plan made for an owner marks all it holds as belonging to that owner.
pub proof fn lemma_plan_is_owned(plan: PlanView, tree: TreeView, owner: Oid, parent: Option<Oid>)
    requires
        plan.follows(tree, owner, parent),
    ensures
        plan.owned_by(owner),
    decreases plan,
{
    assert forall|i: int| 0 <= i < plan.folders.len() implies (#[trigger] plan.folders[i]).owned_by(
        owner,
    ) by {
        lemma_plan_is_owned(plan.folders[i], tree.folder_list()[i], owner, plan.record.id);
    }
}

/// Going down to where the next request arises keeps the marks of ownership.
proof fn lemma_settled_is_owned(walk: WalkView)
    requires
        walk.owned(),
    ensures
        walk.settled().owned(),
    decreases walk.pending(),
{
    if walk.must_open() {
        let top = walk.top();
        let next = walk.opened();
        assert(top.owned_by(walk.owner));
        assert forall|i: int| 0 <= i < next.stack.len() implies (#[trigger] next.stack[i]).owned_by(
            walk.owner,
        ) by {
            if i < walk.stack.len() - 1 {
                assert(next.stack[i] == walk.stack[i]);
            } else if i == walk.stack.len() - 1 {
                assert forall|j: int| 0 <= j < next.stack[i].folders.len() implies (
                #[trigger] next.stack[i].folders[j]).owned_by(walk.owner) by {
                    assert(next.stack[i].folders[j] == top.folders[j + 1]);
                }
            } else {
                assert(next.stack[i] == FrameView::of(top.folders[0]));
                assert(top.folders[0].owned_by(walk.owner));
            }
        }
        lemma_settled_is_owned(next);
    }
}

/// A walk that starts on a plan of its owner has only that owner's
/// entities to store.
pub proof fn lemma_create_starts_owned(plan: PlanView, owner: Oid, link: Option<Oid>)
    requires
        plan.owned_by(owner),
    ensures
        WalkView::starting(plan, owner, link).settled().owned(),
{
    let walk = WalkView::starting(plan, owner, link);
    assert(walk.stack[0] == FrameView::of(plan));
    lemma_settled_is_owned(walk);
}

/// Whatever the store replies, a walk keeps having only its owner's
/// entities to store.
pub proof fn lemma_create_stays_owned(walk: WalkView, reply: ReplyView)
    requires
        walk.owned(),
    ensures
        walk.after(reply).owned(),
        walk.after(reply).owner == walk.owner,
{
    let taken = walk.takes(reply);
    let owner = walk.owner;
    assert(taken.owner == owner);
    assert forall|i: int| 0 <= i < taken.stack.len() implies (#[trigger] taken.stack[i]).owned_by(
        owner,
    ) by {
        let last = walk.stack.len() - 1;
        if i < walk.stack.len() {
            assert(walk.stack[i].owned_by(owner));
        }
        if walk.stack.len() > 0 {
            assert(walk.stack[last].owned_by(owner));
            let top = walk.stack[last];
            if i == last && taken.stack[i] != top {
                if top.files.len() > 0 {
                    assert forall|j: int| 0 <= j < taken.stack[i].files.len() implies (
                    #[trigger] taken.stack[i].files[j]).user_id == Some(owner) by {
                        if top.counted {
                            assert(taken.stack[i].files[j] == top.files[j + 1]);
                        } else {
                            assert(top.files[j].user_id == Some(owner));
                        }
                    }
                }
            }
        }
    }
    lemma_settled_is_owned(taken);
    lemma_settled_keeps_owner(taken);
}

/// Going down to where the next request arises changes no owner.
proof fn lemma_settled_keeps_owner(walk: WalkView)
    ensures
        walk.settled().owner == walk.owner,
    decreases walk.pending(),
{
    if walk.must_open() {
        lemma_settled_keeps_owner(walk.opened());
    }
}

/// Every request of a walk that creates a tree is made for the owner of the
/// walk: a search or an update is scoped to the owner, and what is inserted
/// is marked as the owner's.
pub proof fn lemma_create_asks_for_its_owner(walk: WalkView)
    requires
        walk.owned(),
    ensures
        walk.wants() matches CreateStepView::Ask(request) ==> request.owner() == Some(walk.owner),
{
    if walk.stack.len() > 0 {
        assert(walk.stack[walk.stack.len() - 1].owned_by(walk.owner));
    }
}

/// Whether `after` has all that `owner` has in `before`, and as it is
/// there.
pub open spec fn spares(before: StoreState, after: StoreState, owner: Oid) -> bool {
    &&& forall|id: Oid|
        before.files.dom().contains(id) && (#[trigger] before.files[id]).user_id == Some(owner)
            ==> after.files.dom().contains(id) && after.files[id] == before.files[id]
    &&& forall|id: Oid|
        before.folders.dom().contains(id) && (#[trigger] before.folders[id]).user_id == Some(owner)
            ==> after.folders.dom().contains(id) && after.folders[id] == before.folders[id]
}

/// No reply changes the owner of a walk that removes folders.
proof fn lemma_delete_run_keeps_owner(
    walk: DeleteView,
    store: StoreState,
    answers: Seq<(ReplyView, StoreState)>,
)
    ensures
        walk_after(walk, answers).owner == walk.owner,
    decreases answers.len(),
{
    if answers.len() > 0 {
        lemma_delete_run_keeps_owner(walk, store, answers.drop_last());
    }
}

/// A walk that removes folders for one owner leaves all that another owner
/// has as it is, whatever it is asked to remove and however long it runs.
pub proof fn lemma_delete_spares_other_owners(
    walk: DeleteView,
    store: StoreState,
    answers: Seq<(ReplyView, StoreState)>,
    other: Oid,
)
    requires
        is_run(walk, store, answers),
        walk.owner != other,
    ensures
        spares(store, store_after(store, answers), other),
    decreases answers.len(),
{
    if answers.len() > 0 {
        let earlier = answers.drop_last();
        lemma_delete_spares_other_owners(walk, store, earlier, other);
        lemma_delete_run_keeps_owner(walk, store, earlier);
        let before = walk_after(walk, earlier);
        lemma_delete_asks_for_its_owner(before);
        lemma_owners_are_kept_apart(
            store_after(store, earlier),
            before.wants()->Ask_0,
            answers.last().0,
            answers.last().1,
            other,
        );
    }
}

/// However long a walk that creates a tree runs, it has only its owner's
/// entities to store.
proof fn lemma_create_run_stays_owned(
    walk: WalkView,
    store: StoreState,
    answers: Seq<(ReplyView, StoreState)>,
)
    requires
        walk.owned(),
    ensures
        created_after(walk, answers).owned(),
        created_after(walk, answers).owner == walk.owner,
    decreases answers.len(),
{
    if answers.len() > 0 {
        lemma_create_run_stays_owned(walk, store, answers.drop_last());
        lemma_create_stays_owned(created_after(walk, answers.drop_last()), answers.last().0);
    }
}

/// A walk that stores the plan made from a description for one owner makes
/// every request for that owner, and leaves all that another owner has as
/// it is, however long it runs.
pub proof fn lemma_create_spares_other_owners(
    tree: TreeView,
    plan: PlanView,
    owner: Oid,
    link: Option<Oid>,
    store: StoreState,
    answers: Seq<(ReplyView, StoreState)>,
    other: Oid,
)
    requires
        plan.follows(tree, owner, link),
        is_create_run(WalkView::starting(plan, owner, link).settled(), store, answers),
        owner != other,
    ensures
        created_after(WalkView::starting(plan, owner, link).settled(), answers).wants() matches CreateStepView::Ask(
            request,
        ) ==> request.owner() == Some(owner),
        spares(store, grown_after(store, answers), other),
    decreases answers.len(),
{
    let walk = WalkView::starting(plan, owner, link).settled();
    lemma_plan_is_owned(plan, tree, owner, link);
    lemma_create_starts_owned(plan, owner, link);
    lemma_create_run_stays_owned(walk, store, answers);
    lemma_create_asks_for_its_owner(created_after(walk, answers));
    assert(walk.owner == owner) by {
        lemma_settled_keeps_owner(WalkView::starting(plan, owner, link));
    }
    if answers.len() > 0 {
        let earlier = answers.drop_last();
        lemma_create_spares_other_owners(tree, plan, owner, link, store, earlier, other);
        lemma_create_run_stays_owned(walk, store, earlier);
        let before = created_after(walk, earlier);
        lemma_create_asks_for_its_owner(before);
        lemma_owners_are_kept_apart(
            grown_after(store, earlier),
            before.wants()->Ask_0,
            answers.last().0,
            answers.last().1,
            other,
        );
    }
}

} // verus!
