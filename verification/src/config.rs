//! What the client is run with.

use vstd::prelude::*;
use crate::error;
use crate::error::{EcError, EcErrorView, EcResult};
use crate::route_table;
use crate::text;

verus! {

/// The settings of a run.
#[derive(Debug, Clone)]
pub struct AppConfig {
    pub server: String,
    pub username: String,
    pub password: String,
    pub socks_bind: String,
    pub fallback_proxy: Option<String>,
    pub extra_ips: Vec<String>,
    pub details: bool,
}

/// What is kept from one run to the next: never the password.
#[derive(Debug, Clone)]
pub struct RememberedConfig {
    pub server: String,
    pub username: String,
}

/// The file in which it is kept.
pub const REMEMBERED_FILE: &'static str = "remembered.json";

/// The error for a missing password.
pub const PASSWORD_REQUIRED: &'static str = "password is required: use --password or SHIEP_PIPELINE_PASSWORD";

/// Settings as plain values.
#[verifier::ext_equal]
pub ghost struct ConfigView {
    pub server: Seq<char>,
    pub username: Seq<char>,
    pub password: Seq<char>,
    pub socks_bind: Seq<char>,
    pub fallback_proxy: Option<Seq<char>>,
    pub extra_ips: Seq<Seq<char>>,
    pub details: bool,
}

/// What is kept, as plain values.
#[verifier::ext_equal]
pub ghost struct RememberedView {
    pub server: Seq<char>,
    pub username: Seq<char>,
}

impl View for AppConfig {
    type V = ConfigView;

    open spec fn view(&self) -> ConfigView {
        ConfigView {
            server: self.server@,
            username: self.username@,
            password: self.password@,
            socks_bind: self.socks_bind@,
            fallback_proxy: text::shown(self.fallback_proxy),
            extra_ips: text::views(self.extra_ips@),
            details: self.details,
        }
    }
}

impl View for RememberedConfig {
    type V = RememberedView;

    open spec fn view(&self) -> RememberedView {
        RememberedView { server: self.server@, username: self.username@ }
    }
}

impl ConfigView {
    /// What is wrong with the settings, if anything.
    pub open spec fn failure(self) -> Option<EcErrorView> {
        if text::trimmed(self.server).len() == 0 {
            Some(EcErrorView::InvalidConfig("server is required"@))
        } else if text::trimmed(self.username).len() == 0 {
            Some(EcErrorView::InvalidConfig("username is required"@))
        } else if self.password.len() == 0 {
            Some(EcErrorView::InvalidConfig(PASSWORD_REQUIRED@))
        } else if text::trimmed(self.socks_bind).len() == 0 {
            Some(EcErrorView::InvalidConfig("bind is required"@))
        } else {
            None
        }
    }

    /// The settings as they are kept: everything trimmed but the password, and what is blank
    /// then left out.
    pub open spec fn normalized(self) -> ConfigView {
        ConfigView {
            server: text::trimmed(self.server),
            username: text::trimmed(self.username),
            password: self.password,
            socks_bind: text::trimmed(self.socks_bind),
            fallback_proxy: nonblank_option(self.fallback_proxy),
            extra_ips: route_table::nonblank(self.extra_ips),
            details: self.details,
        }
    }

    /// The settings as they are kept, or what is wrong with them.
    pub open spec fn accepted(self) -> Result<ConfigView, EcErrorView> {
        match self.normalized().failure() {
            Some(e) => Err(e),
            None => Ok(self.normalized()),
        }
    }
}

/// An optional text, trimmed; a blank one is none.
pub open spec fn nonblank_option(value: Option<Seq<char>>) -> Option<Seq<char>> {
    match value {
        Some(v) => if text::trimmed(v).len() == 0 {
            None
        } else {
            Some(text::trimmed(v))
        },
        None => None,
    }
}

fn trim_owned(value: String) -> (r: String)
    ensures
        r@ == text::trimmed(value@),
{
    let cs = text::chars_of(value.as_str());
    text::text_of(text::trim(cs.as_slice()))
}

fn normalize_optional_trimmed(value: Option<String>) -> (r: Option<String>)
    ensures
        text::shown(r) == nonblank_option(text::shown(value)),
{
    match value {
        Some(v) => {
            let t = trim_owned(v);
            if t.as_str().is_empty() {
                None
            } else {
                Some(t)
            }
        },
        None => None,
    }
}

fn is_blank(value: &str) -> (r: bool)
    ensures
        r == (text::trimmed(value@).len() == 0),
{
    let cs = text::chars_of(value);
    let t = text::trim(cs.as_slice());
    t.len() == 0
}

fn normalize_list(values: Vec<String>) -> (r: Vec<String>)
    ensures
        text::views(r@) == route_table::nonblank(text::views(values@)),
{
    let ghost all = text::views(values@);
    let mut out: Vec<String> = Vec::new();
    assert(text::views(out@) =~= route_table::nonblank(all.take(0)));
    for i in 0..values.len()
        invariant
            all == text::views(values@),
            text::views(out@) == route_table::nonblank(all.take(i as int)),
    {
        assert(all.take(i + 1).drop_last() == all.take(i as int));
        assert(all.take(i + 1).last() == values@[i as int]@);
        let cs = text::chars_of(values[i].as_str());
        let t = text::trim(cs.as_slice());
        if t.len() > 0 {
            let kept = text::text_of(t);
            proof {
                text::lemma_views_push(out@, kept);
            }
            out.push(kept);
        }
    }
    assert(all.take(all.len() as int) == all);
    out
}

/// What came of the user's arguments.
#[derive(Debug)]
pub struct Resolution {
    /// The settings, or what is wrong with them.
    pub config: EcResult<AppConfig>,
    /// What is to be kept for the next run.
    pub remember: Option<RememberedConfig>,
}

/// The first of two optional texts that is there.
pub open spec fn either(a: Option<Seq<char>>, b: Option<Seq<char>>) -> Option<Seq<char>> {
    match a {
        Some(v) => Some(v),
        None => b,
    }
}

/// Server and username: the given ones, and, if the user wants them remembered, those of a
/// former run where none are given.
pub open spec fn identity(
    server: Option<Seq<char>>,
    username: Option<Seq<char>>,
    remember: bool,
    remembered: Option<RememberedView>,
) -> Result<RememberedView, EcErrorView> {
    let kept_server = match remembered {
        Some(r) => if remember {
            Some(r.server)
        } else {
            None
        },
        None => None,
    };
    let kept_username = match remembered {
        Some(r) => if remember {
            Some(r.username)
        } else {
            None
        },
        None => None,
    };
    match (either(server, kept_server), either(username, kept_username)) {
        (None, _) => Err(EcErrorView::InvalidConfig("server is required"@)),
        (Some(_), None) => Err(EcErrorView::InvalidConfig("username is required"@)),
        (Some(server), Some(username)) => Ok(RememberedView { server, username }),
    }
}

/// What the user's arguments make of settings and of what is to be kept: the settings or what is
/// wrong with them, and who connects where if that is to be remembered.
pub open spec fn resolution(
    identity: Result<RememberedView, EcErrorView>,
    remember: bool,
    others: ConfigView,
) -> (Result<ConfigView, EcErrorView>, Option<RememberedView>) {
    match identity {
        Err(e) => (Err(e), None),
        Ok(id) => (
            (ConfigView { server: id.server, username: id.username, ..others }).accepted(),
            if remember {
                Some(id)
            } else {
                None
            },
        ),
    }
}

fn pick(given: Option<String>, kept: Option<String>) -> (r: Option<String>)
    ensures
        text::shown(r) == either(text::shown(given), text::shown(kept)),
{
    match given {
        Some(v) => Some(v),
        None => kept,
    }
}

impl AppConfig {
    /// The settings that the user's arguments make. With `remember`, server and username may
    /// come from a former run, and are kept for the next one whether or not the other
    /// settings are right.
    pub fn resolve(
        server: Option<String>,
        username: Option<String>,
        password: String,
        socks_bind: String,
        fallback_proxy: Option<String>,
        extra_ips: Vec<String>,
        details: bool,
        remember: bool,
        remembered: Option<RememberedConfig>,
    ) -> (r: Resolution)
        ensures
            match identity(
                text::shown(server),
                text::shown(username),
                remember,
                text::shown(remembered),
            ) {
                Err(e) => r.remember is None && error::shown(r.config) == Err::<
                    ConfigView,
                    EcErrorView,
                >(e),
                Ok(id) => {
                    &&& text::shown(r.remember) == if remember {
                        Some(id)
                    } else {
                        None
                    }
                    &&& error::shown(r.config) == (ConfigView {
                        server: id.server,
                        username: id.username,
                        password: password@,
                        socks_bind: socks_bind@,
                        fallback_proxy: text::shown(fallback_proxy),
                        extra_ips: text::views(extra_ips@),
                        details,
                    }).accepted()
                },
            },
            (error::shown(r.config), text::shown(r.remember)) == resolution(
                identity(
                    text::shown(server),
                    text::shown(username),
                    remember,
                    text::shown(remembered),
                ),
                remember,
                ConfigView {
                    server: Seq::empty(),
                    username: Seq::empty(),
                    password: password@,
                    socks_bind: socks_bind@,
                    fallback_proxy: text::shown(fallback_proxy),
                    extra_ips: text::views(extra_ips@),
                    details,
                },
            ),
    {
        let (kept_server, kept_username) = match remembered {
            Some(kept) => if remember {
                (Some(kept.server), Some(kept.username))
            } else {
                (None, None)
            },
            None => (None, None),
        };
        let server = match pick(server, kept_server) {
            Some(v) => v,
            None => {
                return Resolution {
                    config: Err(EcError::InvalidConfig("server is required")),
                    remember: None,
                };
            },
        };
        let username = match pick(username, kept_username) {
            Some(v) => v,
            None => {
                return Resolution {
                    config: Err(EcError::InvalidConfig("username is required")),
                    remember: None,
                };
            },
        };
        let kept = if remember {
            Some(RememberedConfig { server: server.clone(), username: username.clone() })
        } else {
            None
        };
        let config = AppConfig::new(
            server,
            username,
            password,
            socks_bind,
            fallback_proxy,
            extra_ips,
            details,
        );
        Resolution { config, remember: kept }
    }

    /// The settings, if they are right.
    pub fn new(
        server: String,
        username: String,
        password: String,
        socks_bind: String,
        fallback_proxy: Option<String>,
        extra_ips: Vec<String>,
        details: bool,
    ) -> (r: EcResult<Self>)
        ensures
            error::shown(r) == (ConfigView {
                server: server@,
                username: username@,
                password: password@,
                socks_bind: socks_bind@,
                fallback_proxy: text::shown(fallback_proxy),
                extra_ips: text::views(extra_ips@),
                details,
            }).accepted(),
    {
        let config = AppConfig {
            server: trim_owned(server),
            username: trim_owned(username),
            password,
            socks_bind: trim_owned(socks_bind),
            fallback_proxy: normalize_optional_trimmed(fallback_proxy),
            extra_ips: normalize_list(extra_ips),
            details,
        };
        match config.validate() {
            Err(e) => Err(e),
            Ok(_) => Ok(config),
        }
    }

    /// Whether the settings are right.
    pub fn validate(&self) -> (r: EcResult<()>)
        ensures
            match self@.failure() {
                None => r is Ok,
                Some(f) => r matches Err(e) && e@ == f,
            },
    {
        if is_blank(self.server.as_str()) {
            return Err(EcError::InvalidConfig("server is required"));
        }
        if is_blank(self.username.as_str()) {
            return Err(EcError::InvalidConfig("username is required"));
        }
        if self.password.as_str().is_empty() {
            return Err(EcError::InvalidConfig(PASSWORD_REQUIRED));
        }
        if is_blank(self.socks_bind.as_str()) {
            return Err(EcError::InvalidConfig("bind is required"));
        }
        Ok(())
    }
}

// ---------------------------------------------------------------------------
// Laws
// ---------------------------------------------------------------------------

/// Settings that were accepted are right, and accepting them again changes nothing.
pub proof fn law_accepted_settings_stay(c: ConfigView)
    requires
        c.accepted() is Ok,
    ensures
        c.accepted()->Ok_0.failure() is None,
        c.accepted()->Ok_0.accepted() == c.accepted(),
{
    text::law_trim_is_idempotent(c.server);
    text::law_trim_is_idempotent(c.username);
    text::law_trim_is_idempotent(c.socks_bind);
    if let Some(p) = c.fallback_proxy {
        text::law_trim_is_idempotent(p);
    }
    lemma_nonblank_stays(c.extra_ips);
    assert(c.normalized().normalized() =~= c.normalized());
}

proof fn lemma_nonblank_stays(items: Seq<Seq<char>>)
    ensures
        route_table::nonblank(route_table::nonblank(items)) == route_table::nonblank(items),
    decreases items.len(),
{
    if items.len() > 0 {
        let before = route_table::nonblank(items.drop_last());
        let t = text::trimmed(items.last());
        lemma_nonblank_stays(items.drop_last());
        if t.len() > 0 {
            text::law_trim_is_idempotent(items.last());
            assert(before.push(t).drop_last() =~= before);
            assert(before.push(t).last() == t);
        }
    }
}

/// What the user gives goes before what was remembered, and without being asked to remember
/// nothing of a former run is used.
pub proof fn law_given_goes_before_remembered(
    server: Option<Seq<char>>,
    username: Option<Seq<char>>,
    remember: bool,
    remembered: Option<RememberedView>,
)
    ensures
        identity(server, username, remember, remembered) matches Ok(id) ==> {
            &&& server matches Some(s) ==> id.server == s
            &&& username matches Some(u) ==> id.username == u
        },
        identity(server, username, false, remembered) == identity(server, username, false, None),
{
}

/// What is remembered gives the same identity again in a later run without arguments.
pub proof fn law_remembered_identity_comes_back(id: RememberedView)
    ensures
        identity(None, None, true, Some(id)) == Ok::<RememberedView, EcErrorView>(id),
{
}

/// Settings are accepted if and only if server, username and address to listen on are more than
/// white space and there is a password; what is missing first, in this order but with the
/// password before the address, is the error.
pub proof fn law_settings_are_accepted_if_nothing_is_missing(c: ConfigView)
    ensures
        ({
            let server = text::trimmed(c.server).len() > 0;
            let username = text::trimmed(c.username).len() > 0;
            let password = c.password.len() > 0;
            let bind = text::trimmed(c.socks_bind).len() > 0;
            &&& c.accepted() is Ok <==> server && username && password && bind
            &&& !server ==> c.accepted() == Err::<ConfigView, EcErrorView>(
                EcErrorView::InvalidConfig("server is required"@),
            )
            &&& server && !username ==> c.accepted() == Err::<ConfigView, EcErrorView>(
                EcErrorView::InvalidConfig("username is required"@),
            )
            &&& server && username && !password ==> c.accepted() == Err::<ConfigView, EcErrorView>(
                EcErrorView::InvalidConfig(
                    "password is required: use --password or SHIEP_PIPELINE_PASSWORD"@,
                ),
            )
            &&& server && username && password && !bind ==> c.accepted() == Err::<
                ConfigView,
                EcErrorView,
            >(EcErrorView::InvalidConfig("bind is required"@))
        }),
{
    text::law_trim_is_idempotent(c.server);
    text::law_trim_is_idempotent(c.username);
    text::law_trim_is_idempotent(c.socks_bind);
}

/// Accepted settings are those that were given, without white space round them, except for the
/// password, which is taken as it is. A blank proxy is none, and blank extra entries are left
/// out, while the others stay in their order.
#[verifier::rlimit(40)]
pub proof fn law_accepted_settings_are_the_given_ones(
    c: ConfigView,
    a: Seq<Seq<char>>,
    b: Seq<Seq<char>>,
)
    requires
        c.accepted() is Ok,
    ensures
        ({
            let out = c.accepted()->Ok_0;
            let with = |extra: Seq<Seq<char>>| (ConfigView { extra_ips: extra, ..c }).accepted()->Ok_0;
            &&& out.password == c.password
            &&& out.details == c.details
            &&& out.server == text::trimmed(c.server)
            &&& out.username == text::trimmed(c.username)
            &&& out.socks_bind == text::trimmed(c.socks_bind)
            &&& c.fallback_proxy is None ==> out.fallback_proxy is None
            &&& c.fallback_proxy matches Some(p) ==> {
                &&& text::trimmed(p).len() == 0 ==> out.fallback_proxy is None
                &&& text::trimmed(p).len() > 0 ==> out.fallback_proxy == Some(text::trimmed(p))
            }
            &&& with(a + b).extra_ips == with(a).extra_ips + with(b).extra_ips
            &&& forall|one: Seq<char>|
                text::trimmed(one).len() > 0 ==> (#[trigger] with(seq![one])).extra_ips == seq![
                    text::trimmed(one),
                ]
            &&& forall|one: Seq<char>|
                text::trimmed(one).len() == 0 ==> (#[trigger] with(seq![one])).extra_ips.len() == 0
        }),
{
    lemma_nonblank_join(a, b);
    let with = |extra: Seq<Seq<char>>| (ConfigView { extra_ips: extra, ..c }).accepted()->Ok_0;
    assert forall|one: Seq<char>| true implies (text::trimmed(one).len() > 0 ==> (
    #[trigger] with(seq![one])).extra_ips == seq![text::trimmed(one)]) && (text::trimmed(one).len()
        == 0 ==> with(seq![one]).extra_ips.len() == 0) by {
        assert(seq![one].drop_last() =~= Seq::<Seq<char>>::empty());
        assert(route_table::nonblank(Seq::<Seq<char>>::empty()) =~= Seq::<Seq<char>>::empty());
        if text::trimmed(one).len() > 0 {
            assert(route_table::nonblank(seq![one]) =~= seq![text::trimmed(one)]);
        }
    }
}

proof fn lemma_nonblank_join(a: Seq<Seq<char>>, b: Seq<Seq<char>>)
    ensures
        route_table::nonblank(a + b) == route_table::nonblank(a) + route_table::nonblank(b),
    decreases b.len(),
{
    if b.len() == 0 {
        assert(a + b =~= a);
        assert(route_table::nonblank(a) + route_table::nonblank(b) =~= route_table::nonblank(a));
    } else {
        lemma_nonblank_join(a, b.drop_last());
        assert((a + b).drop_last() =~= a + b.drop_last());
        assert(route_table::nonblank(a + b) =~= route_table::nonblank(a) + route_table::nonblank(b));
    }
}

/// Who connects where is known if and only if server and username are given or, with the wish to
/// remember, were kept; each comes from the arguments if it is given there, and from the former
/// run otherwise.
pub proof fn law_identity_is_given_or_remembered(
    server: Option<Seq<char>>,
    username: Option<Seq<char>>,
    kept: RememberedView,
)
    ensures
        identity(server, username, true, Some(kept)) == Ok::<RememberedView, EcErrorView>(
            RememberedView {
                server: if server is Some {
                    server->0
                } else {
                    kept.server
                },
                username: if username is Some {
                    username->0
                } else {
                    kept.username
                },
            },
        ),
        identity(server, username, false, Some(kept)) is Ok <==> server is Some && username is Some,
        identity(server, username, true, None) is Ok <==> server is Some && username is Some,
        server is None ==> identity(server, username, false, Some(kept)) == Err::<
            RememberedView,
            EcErrorView,
        >(EcErrorView::InvalidConfig("server is required"@)),
        server is Some && username is None ==> identity(server, username, false, Some(kept))
            == Err::<RememberedView, EcErrorView>(
            EcErrorView::InvalidConfig("username is required"@),
        ),
{
}

/// Server and username are kept for the next run if and only if the user wants it and both are
/// known, whether or not the other settings are right; the settings are made of them and of the
/// other arguments.
pub proof fn law_identity_is_kept_on_request(id: RememberedView, e: EcErrorView, others: ConfigView)
    ensures
        resolution(Ok(id), true, others).1 == Some(id),
        resolution(Ok(id), false, others).1 is None,
        resolution(Err(e), true, others).1 is None,
        resolution(Err(e), true, others).0 == Err::<ConfigView, EcErrorView>(e),
        resolution(Ok(id), true, others).0 == resolution(Ok(id), false, others).0,
        resolution(Ok(id), true, others).0 matches Ok(c) ==> c.server == text::trimmed(id.server)
            && c.username == text::trimmed(id.username) && c.password == others.password && c.details
            == others.details,
{
}

} // verus!
