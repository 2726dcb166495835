//! The applications (tenants) of the relay. An application comes into being
//! when the first client authenticates with its token, and stays.

use vstd::prelude::*;
use vstd::std_specs::iter::IteratorSpec;
use crate::relay::rooms::{
    code_at, lemma_code_has_number, roll_code, spec_code_at, spec_is_join_code, Rooms, RoomsView, ID_SPACE,
    MAX_ROLLS,
};
use crate::text::str_eq;

verus! {

/// One application and its rooms.
pub struct App {
    pub id: u64,
    pub token: String,
    pub rooms: Rooms,
}

/// An application as mathematics sees it.
pub struct AppView {
    pub id: u64,
    pub token: Seq<char>,
    pub rooms: RoomsView,
}

impl View for App {
    type V = AppView;

    open spec fn view(&self) -> AppView {
        AppView { id: self.id, token: self.token@, rooms: self.rooms@ }
    }
}

/// An application without rooms.
pub open spec fn spec_new_app(id: u64, token: Seq<char>) -> AppView {
    AppView { id, token, rooms: RoomsView { rooms: Seq::empty(), next_id: 0, codes: Set::empty() } }
}

impl App {
    /// An application without rooms.
    pub fn new(id: u64, token: String) -> (r: Self)
        ensures
            r@ == spec_new_app(id, token@),
    {
        Self { id, token, rooms: Rooms::new() }
    }
}

/// Where the application stands that a lookup of `token` finds: the latest
/// one made with that token.
pub open spec fn spec_find_token(apps: Seq<AppView>, token: Seq<char>) -> Option<int>
    decreases apps.len(),
{
    if apps.len() == 0 {
        None
    } else if apps.last().token == token {
        Some(apps.len() - 1)
    } else {
        spec_find_token(apps.drop_last(), token)
    }
}

/// What `spec_find_token` finds is an application with that token; it finds
/// none only where there is none.
pub proof fn lemma_find_token(apps: Seq<AppView>, token: Seq<char>)
    ensures
        match spec_find_token(apps, token) {
            Some(i) => 0 <= i < apps.len() && apps[i].token == token,
            None => forall|i: int| 0 <= i < apps.len() ==> (#[trigger] apps[i]).token != token,
        },
    decreases apps.len(),
{
    if apps.len() > 0 {
        let front = apps.drop_last();
        lemma_find_token(front, token);
        if apps.last().token != token {
            match spec_find_token(front, token) {
                Some(i) => {
                    assert(front[i] == apps[i]);
                },
                None => {
                    assert forall|i: int| 0 <= i < apps.len() implies (#[trigger] apps[i]).token != token by {
                        if i < front.len() {
                            assert(front[i] == apps[i]);
                        }
                    }
                },
            }
        }
    }
}

/// Each application's id is its place in the list, and its rooms are
/// well-formed.
pub open spec fn spec_apps_wf(apps: Seq<AppView>) -> bool {
    forall|i: int| 0 <= i < apps.len() ==> (#[trigger] apps[i]).id == i && apps[i].rooms.wf()
}

/// Whether some room of some application carries the join code `code`.
pub open spec fn spec_code_in_use(apps: Seq<AppView>, code: Seq<char>) -> bool {
    exists|a: int| 0 <= a < apps.len() && (#[trigger] apps[a]).rooms.codes.contains(code)
}

/// Whether every join code is in use.
pub open spec fn spec_all_codes_in_use(apps: Seq<AppView>) -> bool {
    forall|code: Seq<char>| #[trigger] spec_is_join_code(code) ==> spec_code_in_use(apps, code)
}

/// All applications, by id and by token. Ids are handed out from zero
/// upwards, so an application's id is its place in the list.
pub struct Apps {
    apps: Vec<App>,
}

impl View for Apps {
    type V = Seq<AppView>;

    closed spec fn view(&self) -> Seq<AppView> {
        self.apps@.map_values(|a: App| a@)
    }
}

impl Default for Apps {
    fn default() -> (r: Self)
        ensures
            r@.len() == 0,
            r.wf(),
    {
        Apps { apps: Vec::new() }
    }
}

impl Apps {
    /// Each application's id is its place in the list, and its rooms are
    /// well-formed.
    pub open spec fn wf(&self) -> bool {
        spec_apps_wf(self@)
    }

    /// No application yet; the first will be numbered zero.
    pub fn new() -> (r: Self)
        ensures
            r@.len() == 0,
            r.wf(),
    {
        Apps { apps: Vec::new() }
    }

    /// Makes an application for `token` and returns its id. From now on a
    /// lookup of `token` finds this application.
    pub fn create(&mut self, token: String) -> (app_id: u64)
        requires
            old(self).wf(),
        ensures
            final(self).wf(),
            app_id == old(self)@.len(),
            final(self)@ == old(self)@.push(spec_new_app(app_id, token@)),
            spec_find_token(final(self)@, token@) == Some(app_id as int),
    {
        let app_id = self.apps.len() as u64;
        let app = App::new(app_id, token);
        self.apps.push(app);
        assert(self@ =~= old(self)@.push(spec_new_app(app_id, token@)));
        assert(self@.drop_last() =~= old(self)@);
        app_id
    }

    /// Goes through the applications in the order of their making.
    pub fn iter(&self) -> (r: std::slice::Iter<'_, App>)
        ensures
            r.remaining().len() == self@.len(),
            forall|i: int| 0 <= i < self@.len() ==> (#[trigger] r.remaining()[i])@ == self@[i],
    {
        self.apps.as_slice().iter()
    }

    /// How many applications there are.
    pub fn len(&self) -> (r: usize)
        ensures
            r == self@.len(),
    {
        self.apps.len()
    }

    /// The applications in the order of their making.
    pub fn as_slice(&self) -> (r: &[App])
        ensures
            r@.map_values(|a: App| a@) == self@,
    {
        self.apps.as_slice()
    }

    /// The application numbered `id`.
    pub fn get(&self, id: u64) -> (r: Option<&App>)
        ensures
            r is Some <==> id < self@.len(),
            r is Some ==> r->0@ == self@[id as int],
    {
        if id < self.apps.len() as u64 {
            Some(&self.apps[id as usize])
        } else {
            None
        }
    }

    /// The application numbered `id`, to be changed in place. What the
    /// caller makes of it stands in its place afterwards.
    pub fn get_mut(&mut self, id: u64) -> (r: Option<&mut App>)
        ensures
            r is Some <==> id < old(self)@.len(),
            r is None ==> final(self)@ == old(self)@,
            r is Some ==> r.unwrap()@ == old(self)@[id as int] && final(self)@ == old(self)@.update(
                id as int,
                final(r.unwrap())@,
            ),
    {
        if id < self.apps.len() as u64 {
            let ghost before = self@;
            let app = &mut self.apps[id as usize];
            proof {
                assert(after_borrow(self)@ =~= before.update(id as int, final(app)@));
            }
            Some(app)
        } else {
            None
        }
    }

    /// Whether some room of some application carries the join code `code`.
    pub fn code_in_use(&self, code: &str) -> (r: bool)
        ensures
            r == spec_code_in_use(self@, code@),
    {
        let mut a: usize = 0;
        while a < self.apps.len()
            invariant
                a <= self.apps.len(),
                forall|k: int| 0 <= k < a ==> !(#[trigger] self@[k]).rooms.codes.contains(code@),
            decreases self.apps.len() - a,
        {
            if self.apps[a].rooms.has_code(code) {
                assert(self@[a as int].rooms.codes.contains(code@));
                return true;
            }
            a += 1;
        }
        false
    }

    /// A join code that no room of any application carries. The code is
    /// drawn at random; after `MAX_ROLLS` draws that all hit a code in use, the
    /// codes are gone through one by one. `None` only when every join code is
    /// in use.
    pub fn fresh_code(&self) -> (r: Option<String>)
        ensures
            r is Some ==> spec_is_join_code(r->0@) && !spec_code_in_use(self@, r->0@),
            r is None <==> spec_all_codes_in_use(self@),
    {
        let mut attempt: usize = 0;
        while attempt < MAX_ROLLS
            decreases MAX_ROLLS - attempt,
        {
            let code = roll_code();
            if !self.code_in_use(code.as_str()) {
                return Some(code);
            }
            attempt += 1;
        }
        let mut k: u64 = 0;
        while k < ID_SPACE
            invariant
                k <= ID_SPACE,
                forall|j: int| 0 <= j < k ==> spec_code_in_use(self@, #[trigger] spec_code_at(j)),
            decreases ID_SPACE - k,
        {
            let code = code_at(k);
            if !self.code_in_use(code.as_str()) {
                return Some(code);
            }
            k += 1;
        }
        proof {
            assert forall|code: Seq<char>| #[trigger] spec_is_join_code(code) implies spec_code_in_use(
                self@,
                code,
            ) by {
                lemma_code_has_number(code);
                let n = choose|n: int| 0 <= n < ID_SPACE && code == #[trigger] spec_code_at(n);
                assert(spec_code_in_use(self@, spec_code_at(n)));
            }
        }
        None
    }

    fn find_token(&self, token: &str) -> (r: Option<usize>)
        ensures
            match r {
                Some(i) => spec_find_token(self@, token@) == Some(i as int) && i < self@.len(),
                None => spec_find_token(self@, token@) is None,
            },
    {
        let mut i: usize = self.apps.len();
        assert(self@.take(i as int) =~= self@);
        while i > 0
            invariant
                i <= self.apps.len(),
                spec_find_token(self@, token@) == spec_find_token(self@.take(i as int), token@),
            decreases i,
        {
            assert(self@.take(i as int).drop_last() =~= self@.take(i - 1));
            assert(self@.take(i as int).last() == self@[i - 1]);
            if str_eq(self.apps[i - 1].token.as_str(), token) {
                return Some(i - 1);
            }
            i -= 1;
        }
        None
    }

    /// The application that was made last with the token `token`.
    pub fn get_by_token(&self, token: &str) -> (r: Option<&App>)
        ensures
            match r {
                Some(app) => spec_find_token(self@, token@) is Some && app@ == self@[spec_find_token(
                    self@,
                    token@,
                )->0],
                None => spec_find_token(self@, token@) is None,
            },
    {
        match self.find_token(token) {
            Some(i) => Some(&self.apps[i]),
            None => None,
        }
    }

    /// The application that was made last with the token `token`, to be
    /// changed in place, on the terms of `get_mut`.
    pub fn get_by_token_mut(&mut self, token: &str) -> (r: Option<&mut App>)
        ensures
            r is Some <==> spec_find_token(old(self)@, token@) is Some,
            r is None ==> final(self)@ == old(self)@,
            r is Some ==> {
                let at = spec_find_token(old(self)@, token@)->0;
                r.unwrap()@ == old(self)@[at] && final(self)@ == old(self)@.update(at, final(r.unwrap())@)
            },
    {
        match self.find_token(token) {
            Some(i) => {
                let ghost before = self@;
                let app = &mut self.apps[i];
                proof {
                    assert(after_borrow(self)@ =~= before.update(i as int, final(app)@));
                }
                Some(app)
            },
            None => None,
        }
    }
}

} // verus!
