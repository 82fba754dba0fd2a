use vstd::prelude::*;

use crate::model::opt_view;

verus! {

/// The administrator password and the open sessions, as the library sees them.
pub struct AuthView {
    pub password: Option<Seq<char>>,
    pub sessions: Set<Seq<char>>,
}

/// Who may administer the site: the administrator password, once it is set,
/// and the tokens of the sessions opened by logging in.
pub struct AuthState {
    admin_password: Option<String>,
    sessions: Vec<String>,
}

/// The tokens held by a list of strings, as a set.
pub open spec fn token_set(v: Seq<String>) -> Set<Seq<char>> {
    Set::new(|t: Seq<char>| exists|i: int| 0 <= i < v.len() && #[trigger] v[i]@ == t)
}

/// The text form of a random (version 4) UUID: 32 lower-case hexadecimal
/// digits in groups of 8, 4, 4, 4 and 12 separated by hyphens, the version
/// digit '4' and a variant digit among '8', '9', 'a', 'b'.
pub open spec fn is_uuid_v4_text(s: Seq<char>) -> bool {
    &&& s.len() == 36
    &&& forall|i: int|
        0 <= i < 36 ==> if i == 8 || i == 13 || i == 18 || i == 23 {
            #[trigger] s[i] == '-'
        } else {
            ('0' <= s[i] <= '9') || ('a' <= s[i] <= 'f')
        }
    &&& s[14] == '4'
    &&& (s[19] == '8' || s[19] == '9' || s[19] == 'a' || s[19] == 'b')
}

/// Whether a password must still be set.
pub open spec fn spec_requires_setup(v: AuthView) -> bool {
    v.password is None
}

/// Whether `password` is the administrator password.
pub open spec fn spec_verify_password(v: AuthView, password: Seq<char>) -> bool {
    v.password == Some(password)
}

/// Sets the password unless one is set; tells whether it did.
pub open spec fn spec_set_password_if_unset(v: AuthView, password: Seq<char>) -> (AuthView, bool) {
    if v.password is Some {
        (v, false)
    } else {
        (AuthView { password: Some(password), sessions: v.sessions }, true)
    }
}

/// Opens the session `token`.
pub open spec fn spec_open_session(v: AuthView, token: Seq<char>) -> AuthView {
    AuthView { password: v.password, sessions: v.sessions.insert(token) }
}

/// Closes the session `token`, if it is open.
pub open spec fn spec_revoke_session(v: AuthView, token: Seq<char>) -> AuthView {
    AuthView { password: v.password, sessions: v.sessions.remove(token) }
}

/// Whether the token names an open session; no token names none.
pub open spec fn spec_is_authenticated(v: AuthView, token: Option<Seq<char>>) -> bool {
    match token {
        Some(t) => v.sessions.contains(t),
        None => false,
    }
}

impl View for AuthState {
    type V = AuthView;

    closed spec fn view(&self) -> AuthView {
        AuthView { password: opt_view(self.admin_password), sessions: token_set(self.sessions@) }
    }
}

/// `Uuid::new_v4` of the `uuid` crate, written out by its `Display` impl. The
/// number is random: only the shape of its text is stated.
#[verifier::external_body]
fn new_session_token() -> (token: String)
    ensures
        is_uuid_v4_text(token@),
{
    uuid::Uuid::new_v4().to_string()
}

impl AuthState {
    /// No token is held twice.
    #[verifier::type_invariant]
    spec fn distinct_sessions(self) -> bool {
        forall|i: int, j: int|
            0 <= i < j < self.sessions@.len() ==> #[trigger] self.sessions@[i]@
                != #[trigger] self.sessions@[j]@
    }

    /// A state with the given password, if any, and no open session.
    pub fn new(admin_password: Option<String>) -> (s: Self)
        ensures
            s@.password == opt_view(admin_password),
            s@.sessions == Set::<Seq<char>>::empty(),
    {
        let s = AuthState { admin_password, sessions: Vec::new() };
        assert(token_set(s.sessions@) =~= Set::<Seq<char>>::empty());
        s
    }

    /// Whether no administrator password is set yet.
    pub fn requires_setup(&self) -> (b: bool)
        ensures
            b == spec_requires_setup(self@),
    {
        self.admin_password.is_none()
    }

    /// Whether `password` is the administrator password (false while none is set).
    pub fn verify_password(&self, password: &str) -> (b: bool)
        ensures
            b == spec_verify_password(self@, password@),
    {
        match &self.admin_password {
            Some(stored) => {
                let given = password.to_owned();
                given == *stored
            },
            None => false,
        }
    }

    /// Sets the administrator password unless one is set; returns whether it did.
    pub fn set_password_if_unset(&mut self, password: String) -> (set: bool)
        ensures
            (final(self)@, set) == spec_set_password_if_unset(old(self)@, password@),
    {
        proof {
            use_type_invariant(&*self);
        }
        if self.admin_password.is_some() {
            return false;
        }
        self.admin_password = Some(password);
        true
    }

    /// Opens a session under a fresh random token and returns the token.
    pub fn create_session(&mut self) -> (token: String)
        ensures
            final(self)@ == spec_open_session(old(self)@, token@),
            is_uuid_v4_text(token@),
    {
        let token = new_session_token();
        self.insert_session(token.clone());
        token
    }

    /// Adds `token` to the open sessions, keeping each token once.
    fn insert_session(&mut self, token: String)
        ensures
            final(self)@ == spec_open_session(old(self)@, token@),
    {
        proof {
            use_type_invariant(&*self);
        }
        let ghost before = self.sessions@;
        if self.holds(&token) {
            assert(token_set(before).insert(token@) =~= token_set(before));
            return;
        }
        let mut v: Vec<String> = Vec::new();
        std::mem::swap(&mut v, &mut self.sessions);
        v.push(token);
        assert(token_set(v@) =~= token_set(before).insert(token@)) by {
            assert(v@[before.len() as int] == token);
            assert forall|t: Seq<char>| token_set(before).contains(t) implies token_set(
                v@,
            ).contains(t) by {
                let i = choose|i: int| 0 <= i < before.len() && #[trigger] before[i]@ == t;
                assert(v@[i] == before[i]);
            }
            assert forall|t: Seq<char>| token_set(v@).contains(t) implies token_set(
                before,
            ).insert(token@).contains(t) by {
                let i = choose|i: int|
                    0 <= i < v@.len() && #[trigger] v@[i]@ == t;
                if i < before.len() {
                    assert(before[i] == v@[i]);
                }
            }
        }
        assert forall|i: int, j: int|
            0 <= i < j < v@.len() implies #[trigger] v@[i]@ != #[trigger] v@[j]@ by {
            if j == before.len() {
                assert(v@[i] == before[i]);
            } else {
                assert(v@[i] == before[i]);
                assert(v@[j] == before[j]);
            }
        }
        self.sessions = v;
    }

    /// Whether the list holds a session with the given token.
    fn holds(&self, token: &String) -> (b: bool)
        ensures
            b == token_set(self.sessions@).contains(token@),
    {
        let mut i: usize = 0;
        while i < self.sessions.len()
            invariant
                i <= self.sessions@.len(),
                forall|j: int| 0 <= j < i ==> #[trigger] self.sessions@[j]@ != token@,
            decreases self.sessions@.len() - i,
        {
            if self.sessions[i] == *token {
                assert(self.sessions@[i as int]@ == token@);
                return true;
            }
            i = i + 1;
        }
        false
    }

    /// Closes the session with the given token, if it is open.
    pub fn revoke_session(&mut self, token: &str)
        ensures
            final(self)@ == spec_revoke_session(old(self)@, token@),
    {
        proof {
            use_type_invariant(&*self);
        }
        let target = token.to_owned();
        let ghost before = self.sessions@;
        let mut kept: Vec<String> = Vec::new();
        let mut i: usize = 0;
        while i < self.sessions.len()
            invariant
                i <= self.sessions@.len(),
                self.sessions@ == before,
                target@ == token@,
                forall|a: int, b: int|
                    0 <= a < b < before.len() ==> #[trigger] before[a]@ != #[trigger] before[b]@,
                forall|k: int| 0 <= k < kept@.len() ==> #[trigger] kept@[k]@ != token@,
                forall|a: int, b: int|
                    0 <= a < b < kept@.len() ==> #[trigger] kept@[a]@ != #[trigger] kept@[b]@,
                forall|k: int|
                    0 <= k < kept@.len() ==> exists|j: int|
                        0 <= j < i && #[trigger] before[j]@ == (#[trigger] kept@[k])@,
                forall|j: int|
                    0 <= j < i && (#[trigger] before[j])@ != token@ ==> exists|k: int|
                        0 <= k < kept@.len() && (#[trigger] kept@[k])@ == before[j]@,
            decreases before.len() - i,
        {
            if self.sessions[i] != target {
                let ghost prev = kept@;
                kept.push(self.sessions[i].clone());
                assert(kept@[prev.len() as int]@ == before[i as int]@);
                assert forall|a: int, b: int|
                    0 <= a < b < kept@.len() implies #[trigger] kept@[a]@ != #[trigger] kept@[b]@ by {
                    if b == prev.len() {
                        assert(kept@[a] == prev[a]);
                        let j = choose|j: int| 0 <= j < i && #[trigger] before[j]@ == prev[a]@;
                        assert(before[j]@ != before[i as int]@);
                    } else {
                        assert(kept@[a] == prev[a]);
                        assert(kept@[b] == prev[b]);
                    }
                }
                assert forall|k: int| 0 <= k < kept@.len() implies exists|j: int|
                    0 <= j < i + 1 && #[trigger] before[j]@ == (#[trigger] kept@[k])@ by {
                    if k < prev.len() {
                        assert(kept@[k] == prev[k]);
                        let j = choose|j: int| 0 <= j < i && #[trigger] before[j]@ == prev[k]@;
                        assert(before[j]@ == kept@[k]@);
                    } else {
                        assert(before[i as int]@ == kept@[k]@);
                    }
                }
                assert forall|j: int|
                    0 <= j < i + 1 && (#[trigger] before[j])@ != token@ implies exists|k: int|
                    0 <= k < kept@.len() && (#[trigger] kept@[k])@ == before[j]@ by {
                    if j < i {
                        let k = choose|k: int| 0 <= k < prev.len() && (#[trigger] prev[k])@ == before[j]@;
                        assert(kept@[k] == prev[k]);
                    } else {
                        assert(kept@[prev.len() as int]@ == before[j]@);
                    }
                }
            }
            i = i + 1;
        }
        assert(token_set(kept@) =~= token_set(before).remove(token@)) by {
            assert forall|t: Seq<char>| token_set(kept@).contains(t) implies token_set(
                before,
            ).remove(token@).contains(t) by {
                let k = choose|k: int| 0 <= k < kept@.len() && #[trigger] kept@[k]@ == t;
                let j = choose|j: int| 0 <= j < before.len() && #[trigger] before[j]@ == kept@[k]@;
            }
            assert forall|t: Seq<char>| token_set(before).remove(token@).contains(t) implies token_set(
                kept@,
            ).contains(t) by {
                let j = choose|j: int| 0 <= j < before.len() && #[trigger] before[j]@ == t;
                let k = choose|k: int| 0 <= k < kept@.len() && (#[trigger] kept@[k])@ == before[j]@;
            }
        }
        self.sessions = kept;
    }

    /// Whether `token` names an open session; no token is never authenticated.
    pub fn is_authenticated(&self, token: Option<&str>) -> (b: bool)
        ensures
            b == spec_is_authenticated(self@, opt_str_view(token)),
    {
        match token {
            Some(t) => {
                let owned = t.to_owned();
                self.holds(&owned)
            },
            None => false,
        }
    }
}

/// The character sequence held by an optional string slice.
pub open spec fn opt_str_view(o: Option<&str>) -> Option<Seq<char>> {
    match o {
        Some(s) => Some(s@),
        None => None,
    }
}

/// The administrator password is set once: setting it when none is set makes
/// exactly that password verify and ends the need for setup, leaving the
/// sessions alone; any later attempt changes nothing and reports so.
pub proof fn lemma_password_set_once(v: AuthView, p: Seq<char>, q: Seq<char>, later: Seq<char>)
    ensures
        spec_requires_setup(v) ==> {
            let (v1, set) = spec_set_password_if_unset(v, p);
            &&& set
            &&& !spec_requires_setup(v1)
            &&& spec_verify_password(v1, q) <==> q == p
            &&& v1.sessions == v.sessions
            &&& spec_set_password_if_unset(v1, later) == (v1, false)
        },
        !spec_requires_setup(v) ==> spec_set_password_if_unset(v, p) == (v, false),
{
}

/// An opened session is authenticated and a revoked one is not; neither step
/// touches other sessions or the password; no token is ever authenticated.
pub proof fn lemma_session_lifecycle(v: AuthView, t: Seq<char>, other: Seq<char>)
    ensures
        spec_is_authenticated(spec_open_session(v, t), Some(t)),
        !spec_is_authenticated(spec_revoke_session(v, t), Some(t)),
        other != t ==> spec_is_authenticated(spec_open_session(v, t), Some(other))
            == spec_is_authenticated(v, Some(other)),
        other != t ==> spec_is_authenticated(spec_revoke_session(v, t), Some(other))
            == spec_is_authenticated(v, Some(other)),
        spec_open_session(v, t).password == v.password,
        spec_revoke_session(v, t).password == v.password,
        !spec_is_authenticated(v, None),
{
}

} // verus!
