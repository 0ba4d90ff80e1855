//! In-memory state store: the site owner's profile and the ordered link
//! collection. The store is the single canonical owner of both values; the
//! surrounding application keeps each field behind its own mutex and calls
//! these operations inside the critical section, so every operation here
//! touches exactly one field and says so in its contract.

use vstd::prelude::*;

verus! {

/// A single display link on the page. Ids are unique within a collection and
/// are never recycled or renumbered on removal.
pub struct Link {
    pub id: usize,
    pub title: Vec<u8>,
    pub url: Vec<u8>,
}

/// Mathematical value of a [`Link`].
pub ghost struct LinkV {
    pub id: int,
    pub title: Seq<u8>,
    pub url: Seq<u8>,
}

impl View for Link {
    type V = LinkV;

    open spec fn view(&self) -> LinkV {
        LinkV { id: self.id as int, title: self.title@, url: self.url@ }
    }
}

impl DeepView for Link {
    type V = LinkV;

    open spec fn deep_view(&self) -> LinkV {
        self@
    }
}

/// The site owner's profile. The fields are opaque display data to this core;
/// they are carried, persisted and handed to the builder, never interpreted.
pub struct User {
    pub name: Vec<u8>,
    pub bio: Vec<u8>,
    pub avatar: Vec<u8>,
}

/// Mathematical value of a [`User`].
pub ghost struct UserV {
    pub name: Seq<u8>,
    pub bio: Seq<u8>,
    pub avatar: Seq<u8>,
}

impl View for User {
    type V = UserV;

    open spec fn view(&self) -> UserV {
        UserV { name: self.name@, bio: self.bio@, avatar: self.avatar@ }
    }
}

pub(crate) fn clone_bytes(v: &Vec<u8>) -> (r: Vec<u8>)
    ensures
        r@ == v@,
{
    let mut out: Vec<u8> = Vec::new();
    let mut i: usize = 0;
    while i < v.len()
        invariant
            i <= v.len(),
            out@ == v@.take(i as int),
        decreases v.len() - i,
    {
        out.push(v[i]);
        i = i + 1;
        proof {
            assert(out@ =~= v@.take(i as int));
        }
    }
    proof {
        assert(out@ =~= v@);
    }
    out
}

impl Clone for Link {
    fn clone(&self) -> (r: Link)
        ensures
            r@ == self@,
    {
        Link { id: self.id, title: clone_bytes(&self.title), url: clone_bytes(&self.url) }
    }
}

impl Clone for User {
    fn clone(&self) -> (r: User)
        ensures
            r@ == self@,
    {
        User {
            name: clone_bytes(&self.name),
            bio: clone_bytes(&self.bio),
            avatar: clone_bytes(&self.avatar),
        }
    }
}

/// Holds of the links that survive removal of `id`.
pub open spec fn keeps_other(id: int) -> spec_fn(LinkV) -> bool {
    |l: LinkV| l.id != id
}

/// The links that remain once every link carrying `id` is removed.
pub open spec fn remove_links(ls: Seq<LinkV>, id: int) -> Seq<LinkV> {
    ls.filter(keeps_other(id))
}

/// No two links of the collection share an id.
pub open spec fn unique_ids(ls: Seq<LinkV>) -> bool {
    forall|i: int, j: int| 0 <= i < j < ls.len() ==> ls[i].id != ls[j].id
}

/// The state store: the canonical in-memory copy of the profile and the
/// ordered link collection.
pub struct AppState {
    pub user: User,
    pub links: Vec<Link>,
}

impl AppState {
    /// Append a link to the end of the collection. The profile is untouched.
    /// The collection itself is not persisted here; persistence of links
    /// happens when a site is generated, or when a load replaces the cache.
    pub fn add_link(&mut self, link: Link)
        ensures
            final(self).links.deep_view() == old(self).links.deep_view().push(link@),
            final(self).user == old(self).user,
    {
        let ghost before = self.links.deep_view();
        let ghost lv = link@;
        self.links.push(link);
        proof {
            assert(self.links.deep_view() =~= before.push(lv));
        }
    }

    /// Retain only the links whose id differs from `id`; a no-op when no link
    /// carries `id`. The profile is untouched.
    pub fn remove_link(&mut self, id: usize)
        ensures
            final(self).links.deep_view() == remove_links(old(self).links.deep_view(), id as int),
            final(self).user == old(self).user,
    {
        broadcast use Seq::lemma_filter_push;

        let ghost all = self.links.deep_view();
        let ghost pred = keeps_other(id as int);
        let mut kept: Vec<Link> = Vec::new();
        let mut i: usize = 0;
        proof {
            reveal(Seq::filter);
            assert(all.take(0) =~= Seq::<LinkV>::empty());
        }
        while i < self.links.len()
            invariant
                i <= self.links.len(),
                all == self.links.deep_view(),
                pred == keeps_other(id as int),
                kept.deep_view() == all.take(i as int).filter(pred),
            decreases self.links.len() - i,
        {
            let ghost kept_before = kept.deep_view();
            let ghost j = i as int;
            let l = self.links[i].clone();
            proof {
                assert(l@ == all[j]);
                assert(pred(all[j]) == (l.id != id));
            }
            if l.id != id {
                kept.push(l);
                proof {
                    assert(kept.deep_view() =~= kept_before.push(all[j]));
                }
            }
            i = i + 1;
            proof {
                assert(all.take(j + 1) =~= all.take(j).push(all[j]));
                all.take(j).lemma_filter_push(all[j], pred);
                assert(all.take(j).push(all[j]).filter(pred) == if pred(all[j]) {
                    all.take(j).filter(pred).push(all[j])
                } else {
                    all.take(j).filter(pred)
                });
                assert(kept.deep_view() == all.take(i as int).filter(pred));
            }
        }
        proof {
            assert(all.take(self.links.len() as int) =~= all);
        }
        self.links = kept;
    }
}

/// Removing an id that no link of the collection carries leaves the
/// collection exactly as it was.
pub proof fn lemma_remove_absent(ls: Seq<LinkV>, id: int)
    requires
        forall|i: int| 0 <= i < ls.len() ==> ls[i].id != id,
    ensures
        remove_links(ls, id) == ls,
    decreases ls.len(),
{
    reveal(Seq::filter);
    if ls.len() > 0 {
        lemma_remove_absent(ls.drop_last(), id);
        assert(remove_links(ls, id) =~= ls);
    } else {
        assert(remove_links(ls, id) =~= ls);
    }
}

/// Removal is idempotent: removing the same id a second time changes nothing.
pub proof fn lemma_remove_idempotent(ls: Seq<LinkV>, id: int)
    ensures
        remove_links(remove_links(ls, id), id) == remove_links(ls, id),
{
    broadcast use Seq::lemma_filter_pred;

    let kept = remove_links(ls, id);
    assert(forall|i: int| 0 <= i < kept.len() ==> kept[i].id != id);
    lemma_remove_absent(kept, id);
}

/// When ids are unique and `ls[k]` carries the removed id, removal takes out
/// exactly that one link and no other.
pub proof fn lemma_remove_present(ls: Seq<LinkV>, id: int, k: int)
    requires
        unique_ids(ls),
        0 <= k < ls.len(),
        ls[k].id == id,
    ensures
        remove_links(ls, id) == ls.remove(k),
    decreases ls.len(),
{
    broadcast use Seq::lemma_filter_push;

    let head = ls.drop_last();
    assert(ls == head.push(ls.last()));
    if k == ls.len() - 1 {
        assert(forall|i: int| 0 <= i < head.len() ==> head[i].id != id);
        lemma_remove_absent(head, id);
        assert(remove_links(head.push(ls.last()), id) == remove_links(head, id));
        assert(remove_links(ls, id) =~= ls.remove(k));
    } else {
        assert(ls.last().id != id);
        lemma_remove_present(head, id, k);
        assert(remove_links(ls, id) == remove_links(head, id).push(ls.last()));
        assert(remove_links(ls, id) =~= ls.remove(k));
    }
}

/// Appending a link whose id is fresh and then removing that id restores the
/// original collection.
pub proof fn lemma_add_remove_round_trip(ls: Seq<LinkV>, link: LinkV)
    requires
        forall|i: int| 0 <= i < ls.len() ==> ls[i].id != link.id,
    ensures
        remove_links(ls.push(link), link.id) == ls,
{
    broadcast use Seq::lemma_filter_push;

    assert(remove_links(ls.push(link), link.id) == remove_links(ls, link.id));
    lemma_remove_absent(ls, link.id);
}

} // verus!
