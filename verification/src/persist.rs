//! Persistence protocol of the state store. The store never touches the disk
//! itself: the surrounding application performs the reads and writes and
//! reports their outcome, and the operations here decide what the in-memory
//! state becomes, so that the canonical file and the in-memory copy can
//! never be observed to disagree.

use vstd::prelude::*;

use crate::json::json_user;
use crate::state::{AppState, Link, LinkV, User, UserV};

verus! {

/// Model of the profile's persistence: the bytes of the canonical on-disk
/// file beside the in-memory copy.
pub ghost struct UserSync {
    pub disk: Seq<u8>,
    pub mem: UserV,
}

/// Disk and memory agree: the file holds exactly the encoding of the
/// in-memory profile.
pub open spec fn user_in_sync(s: UserSync) -> bool {
    s.disk == json_user(s.mem)
}

/// One profile update: the encoded new value is written to disk first, and
/// only a successful write replaces both sides; a failed write leaves both
/// exactly as they were.
pub open spec fn update_user_step(s: UserSync, new: UserV, wrote: bool) -> UserSync {
    if wrote {
        UserSync { disk: json_user(new), mem: new }
    } else {
        s
    }
}

/// An update never lets disk and memory disagree: it either moves both to
/// the new value (successful write) or leaves both at the prior value
/// (failed write), and agreement is preserved either way.
pub proof fn lemma_update_user_never_diverges(s: UserSync, new: UserV, wrote: bool)
    requires
        user_in_sync(s),
    ensures
        user_in_sync(update_user_step(s, new, wrote)),
        wrote ==> update_user_step(s, new, wrote) == (UserSync {
            disk: json_user(new),
            mem: new,
        }),
        !wrote ==> update_user_step(s, new, wrote) == s,
{
}

/// Keep the current value when a load failed, replace it when the load
/// produced one. The single fallback step shared by every persisted value:
/// a caller always gets a usable value back, never a failure.
pub fn load_or_default<T>(slot: &mut T, loaded: Option<T>)
    ensures
        match loaded {
            Option::Some(v) => *final(slot) == v,
            Option::None => *final(slot) == *old(slot),
        },
{
    match loaded {
        Option::Some(v) => {
            *slot = v;
        },
        Option::None => {},
    }
}

fn clone_links(ls: &Vec<Link>) -> (r: Vec<Link>)
    ensures
        r.deep_view() == ls.deep_view(),
{
    let mut out: Vec<Link> = Vec::new();
    let mut i: usize = 0;
    while i < ls.len()
        invariant
            i <= ls.len(),
            out.deep_view() == ls.deep_view().take(i as int),
        decreases ls.len() - i,
    {
        let ghost before = out.deep_view();
        let l = ls[i].clone();
        proof {
            assert(l@ == ls.deep_view()[i as int]);
        }
        out.push(l);
        proof {
            assert(out.deep_view() =~= before.push(ls.deep_view()[i as int]));
        }
        i = i + 1;
        proof {
            assert(ls.deep_view().take(i as int) =~= ls.deep_view().take(i - 1).push(
                ls.deep_view()[i - 1],
            ));
        }
    }
    proof {
        assert(ls.deep_view().take(ls@.len() as int) =~= ls.deep_view());
    }
    out
}

impl AppState {
    /// Commit a profile update. The caller has already tried to write the
    /// encoding of `user` to the canonical file and reports the outcome in
    /// `wrote`: on success the in-memory copy is replaced, on failure it is
    /// left untouched, so disk and memory move together (see
    /// [`lemma_update_user_never_diverges`]). The links are never touched.
    pub fn update_user(&mut self, user: User, wrote: bool)
        ensures
            wrote ==> final(self).user@ == user@,
            !wrote ==> final(self).user == old(self).user,
            final(self).links == old(self).links,
    {
        if wrote {
            self.user = user;
        }
    }

    /// Refresh the in-memory profile from a load attempt and hand the result
    /// back: the loaded profile when the load succeeded, the cached one
    /// otherwise. The load path never fails its caller.
    pub fn get_user(&mut self, loaded: Option<User>) -> (r: User)
        ensures
            final(self).links == old(self).links,
            match loaded {
                Option::Some(u) => final(self).user@ == u@ && r@ == u@,
                Option::None => final(self).user == old(self).user && r@ == old(self).user@,
            },
    {
        load_or_default(&mut self.user, loaded);
        self.user.clone()
    }

    /// Refresh the in-memory link collection from a load attempt and hand
    /// the result back, with the same fallback as [`AppState::get_user`].
    pub fn get_links(&mut self, loaded: Option<Vec<Link>>) -> (r: Vec<Link>)
        ensures
            final(self).user == old(self).user,
            match loaded {
                Option::Some(ls) => final(self).links.deep_view() == ls.deep_view()
                    && r.deep_view() == ls.deep_view(),
                Option::None => final(self).links == old(self).links && r.deep_view() == old(
                    self,
                ).links.deep_view(),
            },
    {
        load_or_default(&mut self.links, loaded);
        clone_links(&self.links)
    }
}

/// The zero state a store starts from when nothing was ever persisted: an
/// empty profile and no links.
impl Default for AppState {
    fn default() -> (r: AppState)
        ensures
            r.user@ == (UserV { name: Seq::<u8>::empty(), bio: Seq::<u8>::empty(), avatar: Seq::<u8>::empty() }),
            r.links.deep_view() == Seq::<LinkV>::empty(),
    {
        let r = AppState { user: User { name: Vec::new(), bio: Vec::new(), avatar: Vec::new() }, links: Vec::new() };
        proof {
            assert(r.links.deep_view() =~= Seq::<LinkV>::empty());
        }
        r
    }
}

} // verus!
