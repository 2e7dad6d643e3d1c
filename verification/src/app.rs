//! The run of the client: which steps it takes, in which order, and what stops it.

use vstd::prelude::*;
use crate::addr::Ipv4Addr;
use crate::config::{AppConfig, ConfigView};
use crate::dns_resolver::DnsCache;
use crate::error;
use crate::error::{EcErrorView, EcResult};
use crate::route_table;
use crate::route_table::RouteTable;
use crate::routing;
use crate::routing::Router;
use crate::text;

verus! {

/// The client.
#[derive(Debug)]
pub struct EasyConnectApp {
    config: AppConfig,
}

/// The steps of a run, in their order.
#[derive(Debug, Clone, Copy, PartialEq, Eq, Structural)]
pub enum Stage {
    Preconditions,
    Login,
    RouteTable,
    AgentToken,
    CommandStream,
    Tunnel,
    Netstack,
    Serve,
}

impl Stage {
    /// The step that follows.
    pub open spec fn successor(self) -> Option<Stage> {
        match self {
            Stage::Preconditions => Some(Stage::Login),
            Stage::Login => Some(Stage::RouteTable),
            Stage::RouteTable => Some(Stage::AgentToken),
            Stage::AgentToken => Some(Stage::CommandStream),
            Stage::CommandStream => Some(Stage::Tunnel),
            Stage::Tunnel => Some(Stage::Netstack),
            Stage::Netstack => Some(Stage::Serve),
            Stage::Serve => None,
        }
    }

    fn next(self) -> (r: Option<Stage>)
        ensures
            r == self.successor(),
    {
        match self {
            Stage::Preconditions => Some(Stage::Login),
            Stage::Login => Some(Stage::RouteTable),
            Stage::RouteTable => Some(Stage::AgentToken),
            Stage::AgentToken => Some(Stage::CommandStream),
            Stage::CommandStream => Some(Stage::Tunnel),
            Stage::Tunnel => Some(Stage::Netstack),
            Stage::Netstack => Some(Stage::Serve),
            Stage::Serve => None,
        }
    }
}

/// What follows a step that ended as given: the next step, the end of the run or its
/// failure. A run goes on without a route table: the failure of that step is the failure to
/// get the table.
pub open spec fn after_stage(stage: Stage, failure: Option<EcErrorView>) -> Result<
    Option<Stage>,
    EcErrorView,
> {
    match failure {
        Some(e) => if stage == Stage::RouteTable {
            Ok(stage.successor())
        } else {
            Err(e)
        },
        None => Ok(stage.successor()),
    }
}

/// What came of the route table.
#[derive(Debug)]
pub struct TableInstall {
    /// The text to write for the user, if the user wants it.
    pub details: Option<String>,
    /// What is said of the table.
    pub loaded: Option<String>,
    /// What is said of its absence.
    pub warnings: Vec<String>,
}

/// What is said of a table that was installed.
pub open spec fn loaded_text(m: routing::RouterView) -> Seq<char> {
    "route table loaded: "@ + text::decimal(m.rules.len() as int) + " rules, "@ + text::decimal(
        m.dns_servers.len() as int,
    ) + " dns servers, "@ + text::decimal(m.dns_records as int) + " dns records"@
}

/// What targets are planned by, once the route table has been fetched or could not be.
pub open spec fn router_after(
    fetched: Result<route_table::TableView, EcErrorView>,
    extra: Seq<Seq<char>>,
) -> routing::RouterState {
    match fetched {
        Ok(table) => routing::RouterState::Table(routing::compiled_table(table, extra)),
        Err(_) => routing::RouterState::TunnelFallback,
    }
}

impl EasyConnectApp {
    /// The settings of the run.
    pub closed spec fn settings(&self) -> ConfigView {
        self.config@
    }

    /// A client with the given settings.
    pub fn new(config: AppConfig) -> (r: Self)
        ensures
            r.settings() == config@,
    {
        EasyConnectApp { config }
    }

    /// The settings of the run.
    pub fn config(&self) -> (r: &AppConfig)
        ensures
            r@ == self.settings(),
    {
        &self.config
    }

    /// What follows a step that ended as given.
    pub fn run(&self, stage: Stage, outcome: EcResult<()>) -> (r: EcResult<Option<Stage>>)
        ensures
            match (
                r,
                after_stage(
                    stage,
                    match outcome {
                        Ok(_) => None,
                        Err(e) => Some(e@),
                    },
                ),
            ) {
                (Ok(a), Ok(b)) => a == b,
                (Err(e), Err(f)) => e@ == f,
                _ => false,
            },
    {
        match outcome {
            Ok(_) => Ok(stage.next()),
            Err(e) => match stage {
                Stage::RouteTable => Ok(stage.next()),
                _ => Err(e),
            },
        }
    }

    /// Takes the route table, or the failure to get it. Without a table everything goes
    /// through the tunnel.
    pub fn try_install_route_table(
        &self,
        router: &mut Router,
        cache: &mut DnsCache,
        fetched: EcResult<RouteTable>,
    ) -> (r: TableInstall)
        ensures
            final(router).wf(),
            final(cache).wf(),
            final(cache)@ == Map::<(i32, Seq<char>), (Ipv4Addr, u64)>::empty(),
            match fetched {
                Ok(table) => {
                    let compiled = routing::compiled_table(table@, self.settings().extra_ips);
                    &&& final(router)@ == routing::RouterState::Table(compiled)
                    &&& text::shown(r.details) == if self.settings().details {
                        Some(routing::table_text(table@, self.settings().extra_ips))
                    } else {
                        None
                    }
                    &&& text::shown(r.loaded) == Some(loaded_text(compiled))
                    &&& r.warnings@.len() == 0
                },
                Err(e) => {
                    &&& final(router)@ == routing::RouterState::TunnelFallback
                    &&& r.details is None
                    &&& r.loaded is None
                    &&& text::views(r.warnings@) == seq![
                        "route table unavailable: "@ + error::concise(e@.text()),
                        "split routing is disabled; fallback will use tunnel"@,
                    ]
                },
            },
            final(router)@ == router_after(error::shown(fetched), self.settings().extra_ips),
    {
        match fetched {
            Ok(table) => {
                let details = if self.config.details {
                    Some(routing::log_table_details(&table, &self.config.extra_ips))
                } else {
                    None
                };
                let installed = routing::install_route_table(
                    router,
                    cache,
                    table,
                    &self.config.extra_ips,
                );
                let loaded = match installed {
                    Ok(summary) => {
                        let rules = text::decimal_u64(summary.rule_count as u64);
                        let servers = text::decimal_u64(summary.dns_server_count as u64);
                        let records = text::decimal_u64(summary.dns_record_count as u64);
                        Some(
                            "route table loaded: ".to_owned().concat(rules.as_str()).concat(
                                " rules, ",
                            ).concat(servers.as_str()).concat(" dns servers, ").concat(
                                records.as_str(),
                            ).concat(" dns records"),
                        )
                    },
                    Err(_) => None,
                };
                TableInstall { details, loaded, warnings: Vec::new() }
            },
            Err(e) => {
                routing::install_tunnel_fallback(router, cache);
                let why = error::concise_error(&e);
                let mut warnings: Vec<String> = Vec::new();
                warnings.push("route table unavailable: ".to_owned().concat(why.as_str()));
                warnings.push("split routing is disabled; fallback will use tunnel".to_owned());
                assert(text::views(warnings@) =~= seq![
                    "route table unavailable: "@ + error::concise(e@.text()),
                    "split routing is disabled; fallback will use tunnel"@,
                ]);
                TableInstall { details: None, loaded: None, warnings }
            },
        }
    }

    /// The token that the protocol is spoken with: the agent's token and the session id.
    pub fn acquire_protocol_token(agent_token: &str, twf_id: &str) -> (r: String)
        ensures
            r@ == agent_token@ + twf_id@,
            r@ == crate::token::protocol_token(agent_token@, twf_id@),
    {
        agent_token.to_owned().concat(twf_id)
    }

    /// What is said of the session.
    pub fn session_line(twf_id: &str) -> (r: String)
        ensures
            r@ == "session id acquired: "@ + twf_id@,
    {
        "session id acquired: ".to_owned().concat(twf_id)
    }

    /// What is said of the address that the gateway assigned.
    pub fn assigned_line(assigned_ip: [u8; 4]) -> (r: String)
        ensures
            ({
                let ip = Ipv4Addr {
                    bits: crate::addr::join_octets(
                        assigned_ip@[0] as int,
                        assigned_ip@[1] as int,
                        assigned_ip@[2] as int,
                        assigned_ip@[3] as int,
                    ) as u32,
                };
                r@ == "assigned IP: "@ + ip.text()
            }),
    {
        let ip = Ipv4Addr::new(assigned_ip[0], assigned_ip[1], assigned_ip[2], assigned_ip[3]);
        let shown = ip.to_string();
        "assigned IP: ".to_owned().concat(shown.as_str())
    }
}

// ---------------------------------------------------------------------------
// Laws
// ---------------------------------------------------------------------------

/// How a run that begins at a step ends, if its steps end as the given function says.
pub open spec fn run_from(stage: Stage, failures: spec_fn(Stage) -> Option<EcErrorView>, fuel: nat)
    -> Option<Result<(), EcErrorView>>
    decreases fuel,
{
    if fuel == 0 {
        None
    } else {
        match after_stage(stage, failures(stage)) {
            Err(e) => Some(Err(e)),
            Ok(None) => Some(Ok(())),
            Ok(Some(next)) => run_from(next, failures, (fuel - 1) as nat),
        }
    }
}

/// A run in which nothing fails before the serving, but perhaps the fetching of the route
/// table, takes all its steps and ends as the serving does, with the error of the serving.
pub proof fn law_run_goes_on_without_a_table(
    failures: spec_fn(Stage) -> Option<EcErrorView>,
    e: EcErrorView,
)
    requires
        forall|s: Stage|
            s != Stage::RouteTable && s != Stage::Serve ==> (#[trigger] failures(s)) is None,
        failures(Stage::Serve) == Some(e),
    ensures
        run_from(Stage::Preconditions, failures, 8) == Some(Err::<(), EcErrorView>(e)),
{
    reveal_with_fuel(run_from, 9);
    assert(failures(Stage::Preconditions) is None && failures(Stage::Login) is None && failures(
        Stage::AgentToken,
    ) is None);
    assert(failures(Stage::CommandStream) is None && failures(Stage::Tunnel) is None && failures(
        Stage::Netstack,
    ) is None);
}

/// A failed login ends the run with its error, before anything else is asked of the gateway.
pub proof fn law_failed_login_ends_the_run(
    failures: spec_fn(Stage) -> Option<EcErrorView>,
    e: EcErrorView,
)
    requires
        failures(Stage::Preconditions) is None,
        failures(Stage::Login) == Some(e),
    ensures
        run_from(Stage::Preconditions, failures, 2) == Some(Err::<(), EcErrorView>(e)),
{
    reveal_with_fuel(run_from, 3);
}

/// The steps of a run come in this order, each once: the run checks what it needs, logs in, gets
/// the route table, gets the token, opens the command stream, the tunnel and the network stack,
/// and then serves; after that there is nothing.
pub proof fn law_steps_come_in_their_order()
    ensures
        after_stage(Stage::Preconditions, None) == Ok::<Option<Stage>, EcErrorView>(
            Some(Stage::Login),
        ),
        after_stage(Stage::Login, None) == Ok::<Option<Stage>, EcErrorView>(
            Some(Stage::RouteTable),
        ),
        after_stage(Stage::RouteTable, None) == Ok::<Option<Stage>, EcErrorView>(
            Some(Stage::AgentToken),
        ),
        after_stage(Stage::AgentToken, None) == Ok::<Option<Stage>, EcErrorView>(
            Some(Stage::CommandStream),
        ),
        after_stage(Stage::CommandStream, None) == Ok::<Option<Stage>, EcErrorView>(
            Some(Stage::Tunnel),
        ),
        after_stage(Stage::Tunnel, None) == Ok::<Option<Stage>, EcErrorView>(Some(Stage::Netstack)),
        after_stage(Stage::Netstack, None) == Ok::<Option<Stage>, EcErrorView>(Some(Stage::Serve)),
        after_stage(Stage::Serve, None) == Ok::<Option<Stage>, EcErrorView>(None),
{
}

/// Whatever fails, but the fetching of the route table, ends the run with its error, and nothing
/// that comes after it is begun; the failure to fetch the table changes nothing in the order.
pub proof fn law_failures_end_the_run(stage: Stage, e: EcErrorView)
    ensures
        stage != Stage::RouteTable ==> after_stage(stage, Some(e)) == Err::<
            Option<Stage>,
            EcErrorView,
        >(e),
        stage == Stage::RouteTable ==> after_stage(stage, Some(e)) == after_stage(stage, None),
{
}

/// Without a route table every target goes through the tunnel as it is; with one, it is planned
/// by the table and the extra entries of the user, so that an address that is an extra entry
/// goes through the tunnel whatever the table holds.
#[verifier::rlimit(40)]
pub proof fn law_tables_and_extra_entries_are_installed(
    table: route_table::TableView,
    e: EcErrorView,
    extra: Seq<Seq<char>>,
    k: int,
    ip: Ipv4Addr,
    host: Seq<char>,
    port: u16,
)
    requires
        0 <= k < extra.len(),
        extra[k] == ip.text(),
    ensures
        ({
            let to = host + ":"@ + text::decimal(port as int);
            &&& router_after(Err(e), extra).plan_of(host, port) matches Ok(
                routing::PlanStepView::Ready(routing::PlanView::Remote { dial, source, .. }),
            )
            &&& dial == to
            &&& source == routing::RouteSourceView::RouteTableUnavailable
            &&& router_after(Ok(table), extra).plan_of(ip.text(), port) == Ok::<
                routing::PlanStepView,
                EcErrorView,
            >(routing::by_extra(ip, port))
            &&& router_after(Ok(table), Seq::empty()).plan_of(host, port) == Ok::<
                routing::PlanStepView,
                EcErrorView,
            >(routing::compiled_table(table, Seq::empty()).plan_of(host, port))
        }),
{
    crate::addr::law_ipv4_text_is_read_back(ip);
    crate::addr::lemma_ipv4_is_no_socket(ip);
    crate::addr::lemma_ipv4_characters(ip.text());
    text::lemma_trimmed_already(ip.text());
    let s = ip.text();
    assert(!s.contains('~') && !s.contains('/'));
    text::law_characters_are_found(s, '~', Seq::empty());
    text::law_characters_are_found(s, '/', Seq::empty());
    assert(routing::extra_of(s) == Some(routing::MatcherView::Ipv4(ip)));
    routing::law_extra_goes_remote(table, extra, k, s, port);
}

} // verus!
