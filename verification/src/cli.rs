//! The command line: what its options mean, and what follows from what
//! happened.

use vstd::prelude::*;
use vstd::string::*;

use crate::discovery::{is_small_form, lemma_small_form};
use crate::error::{Error, Result};
use crate::identity::Fingerprint;
use crate::history::{elapsed, TransferRecord, TransferStatus};
use crate::net::SocketAddr;
use crate::paths::{as_parent, last_name, parent_text, path_name, Platform};
use crate::protocol::ConfigMessage;
use crate::rendezvous::client::MatchOutcome;
use crate::text::{
    ascii_lowered, decimal, push_decimal, stands_at, str_eq, string_copy, to_ascii_lower, trim,
    trimmed,
};
use crate::transfer_folder::{AcceptDecision, TransferSummary};
use crate::verification::{
    array_of_32, fingerprint_written, hex_chars, hex_decode, law_fingerprints_are_read_back,
    lemma_hex_is_ascii, utf8_len,
};

verus! {

/// How to find and reach the peer.
#[derive(Debug, Clone)]
pub struct SessionParams {
    /// `client` or `server`; the command decides where it is not given.
    pub role: Option<String>,
    pub peer: Option<String>,
    /// The peer's fingerprint in hexadecimal.
    pub peer_fingerprint: Option<String>,
    pub port: u16,
    pub discover: bool,
    pub rendezvous: Option<String>,
    pub code: Option<String>,
    pub force_relay: bool,
}

/// How to transfer.
#[derive(Debug, Clone)]
pub struct TransferParams {
    pub compress: bool,
    pub compress_level: i32,
    pub adaptive: bool,
    /// In kilobytes.
    pub chunk_size: u32,
    /// Bytes per second; 0 for no limit.
    pub max_speed: u64,
    /// 0 for no limit.
    pub max_reconnect_attempts: u32,
}

/// What to do.
#[derive(Debug, Clone)]
pub enum Commands {
    Send {
        path: String,
        state_dir: Option<String>,
        session: SessionParams,
        transfer: TransferParams,
    },
    Receive { output: String, auto_accept: bool, session: SessionParams },
    Discover { timeout: u64, port: u16 },
    NatTest { stun_server: Option<String>, rendezvous: Option<String> },
    Resume {
        transfer_id: String,
        path: String,
        state_dir: Option<String>,
        max_reconnect_attempts: u32,
        session: SessionParams,
    },
    History { limit: usize, direction: Option<String>, completed: bool, failed: bool },
    Gui,
}

/// The whole command line.
#[derive(Debug, Clone)]
pub struct Cli {
    pub command: Option<Commands>,
    pub verbosity: String,
    pub identity_dir: Option<String>,
}

/// Whether `m` says why a text is no fingerprint: it has the wrong length, or
/// digits that are none, which the decoder words itself.
pub open spec fn fingerprint_fault(text: Seq<char>, m: Seq<char>) -> bool {
    if utf8_len(text) != 64 {
        m == "--peer-fingerprint must be 64 hex chars, got "@ + decimal(utf8_len(text)) + " chars"@
    } else {
        stands_at(m, "--peer-fingerprint hex decode: "@, 0)
    }
}

impl SessionParams {
    /// The role, or the one that the command has by default.
    pub open spec fn role_or(self, default: Seq<char>) -> Seq<char> {
        match self.role {
            Some(role) => role@,
            None => default,
        }
    }

    /// The role, or the one that the command has by default.
    pub fn get_role(&self, default: &str) -> (r: String)
        ensures
            r@ == self.role_or(default@),
    {
        match &self.role {
            Some(role) => string_copy(role.as_str()),
            None => string_copy(default),
        }
    }

    /// Whether this side connects.
    pub fn is_client(&self, default: &str) -> (r: bool)
        ensures
            r == (self.role_or(default@) == "client"@),
    {
        str_eq(self.get_role(default).as_str(), "client")
    }

    /// Whether this side listens.
    pub fn is_server(&self, default: &str) -> (r: bool)
        ensures
            r == (self.role_or(default@) == "server"@),
    {
        str_eq(self.get_role(default).as_str(), "server")
    }

    /// The peer's fingerprint, where one is given: 64 hexadecimal digits.
    pub fn parsed_fingerprint(&self) -> (r: core::result::Result<Option<Fingerprint>, String>)
        ensures
            match self.peer_fingerprint {
                None => r matches Ok(o) && o is None,
                Some(text) => match fingerprint_written(text@) {
                    Some(fp) => r matches Ok(Some(f)) && f@ == fp,
                    None => r matches Err(m) && fingerprint_fault(text@, m@),
                },
            },
    {
        let text: &String = match &self.peer_fingerprint {
            None => {
                return Ok(None);
            },
            Some(text) => text,
        };
        let len: usize = text.as_str().as_bytes().len();
        if len != 64 {
            let mut m = "--peer-fingerprint must be 64 hex chars, got ".to_owned();
            push_decimal(&mut m, len as u64);
            m.append(" chars");
            return Err(m);
        }
        match hex_decode(text.as_str()) {
            Ok(bytes) => {
                proof {
                    lemma_hex_is_ascii(text@);
                    assert(bytes@.take(32) =~= bytes@);
                }
                Ok(Some(array_of_32(&bytes)))
            },
            Err(e) => {
                let m: String = "--peer-fingerprint hex decode: ".to_owned().concat(e.as_str());
                assert(m@.subrange(0, "--peer-fingerprint hex decode: "@.len() as int)
                    =~= "--peer-fingerprint hex decode: "@);
                Err(m)
            },
        }
    }

    /// Whether peers meet through a rendezvous server.
    pub fn is_rendezvous_mode(&self) -> (r: bool)
        ensures
            r == (self.rendezvous is Some),
    {
        self.rendezvous.is_some()
    }

    /// Whether `r` is how to come to a session: a rendezvous server goes before
    /// all else, a client looks for a peer or dials the one it is given, and
    /// anyone else listens.
    pub open spec fn plans(
        self,
        default_role: Seq<char>,
        r: core::result::Result<SessionPlan, String>,
    ) -> bool {
        match self.rendezvous {
            Some(server) => match self.code {
                Some(code) => r matches Ok(SessionPlan::Rendezvous { server: s, code: c })
                    && s@ == server@ && c@ == code@,
                None => r matches Err(m) && m@ == "--code is required with --rendezvous"@,
            },
            None => if self.role_or(default_role) != "client"@ {
                r matches Ok(plan) && plan is Listen
            } else if self.discover {
                r matches Ok(plan) && plan is Discover
            } else {
                match (self.peer, self.peer_fingerprint) {
                    (Some(peer), Some(text)) => match fingerprint_written(text@) {
                        Some(fp) => r matches Ok(SessionPlan::Dial { peer: p, fingerprint })
                            && p@ == peer@ && fingerprint@ == fp,
                        None => r matches Err(m) && fingerprint_fault(text@, m@),
                    },
                    (Some(_), None) => r matches Err(m) && m@
                        == "--peer-fingerprint is required with --peer"@,
                    (None, _) => r matches Err(m) && m@
                        == "--peer or --discover is required for the client role"@,
                }
            },
        }
    }

    /// How to come to a session. A rendezvous server goes before all else and
    /// needs a code; a client dials the peer it is given, with the fingerprint
    /// to pin, or looks for one; a server listens.
    pub fn session_plan(&self, default_role: &str) -> (r: core::result::Result<SessionPlan, String>)
        ensures
            self.plans(default_role@, r),
    {
        if let Some(server) = &self.rendezvous {
            return match &self.code {
                Some(code) => Ok(
                    SessionPlan::Rendezvous {
                        server: string_copy(server.as_str()),
                        code: string_copy(code.as_str()),
                    },
                ),
                None => Err("--code is required with --rendezvous".to_owned()),
            };
        }
        if !self.is_client(default_role) {
            return Ok(SessionPlan::Listen);
        }
        if self.discover {
            return Ok(SessionPlan::Discover);
        }
        match &self.peer {
            None => Err("--peer or --discover is required for the client role".to_owned()),
            Some(peer) => match self.parsed_fingerprint() {
                Ok(Some(fingerprint)) => Ok(
                    SessionPlan::Dial { peer: string_copy(peer.as_str()), fingerprint },
                ),
                Ok(None) => Err("--peer-fingerprint is required with --peer".to_owned()),
                Err(e) => Err(e),
            },
        }
    }
}

/// How to come to a session.
#[derive(Debug)]
pub enum SessionPlan {
    /// Meet through a rendezvous server.
    Rendezvous { server: String, code: String },
    /// Connect to a peer.
    Dial { peer: String, fingerprint: Fingerprint },
    /// Look for a peer on the local network.
    Discover,
    /// Wait for a peer.
    Listen,
}

/// The parameters that a transfer proposes.
pub fn transfer_config(params: &TransferParams) -> (r: ConfigMessage)
    requires
        params.chunk_size * 1024 <= u32::MAX,
    ensures
        r == (ConfigMessage {
            compression_enabled: params.compress,
            compression_level: params.compress_level,
            adaptive_compression: params.adaptive,
            chunk_size: (params.chunk_size * 1024) as u32,
            bandwidth_limit: params.max_speed,
        }),
{
    ConfigMessage {
        compression_enabled: params.compress,
        compression_level: params.compress_level,
        adaptive_compression: params.adaptive,
        chunk_size: params.chunk_size * 1024,
        bandwidth_limit: params.max_speed,
    }
}

/// A name for a path: the one it ends in, or that of the directory it stands
/// for, or that directory itself. `canonical` is the path with all `.` and
/// `..` resolved, where that is possible.
pub open spec fn base_name(
    path: Seq<char>,
    canonical: Option<Seq<char>>,
    platform: Platform,
) -> Option<Seq<char>> {
    match last_name(path, platform) {
        Some(name) => Some(name),
        None => match canonical {
            Some(c) => match last_name(c, platform) {
                Some(name) => Some(name),
                None => Some(c),
            },
            None => None,
        },
    }
}

/// A name for a path.
pub fn derive_base_name(path: &str, canonical: Option<&str>, platform: Platform) -> (r:
    core::result::Result<String, String>)
    ensures
        match base_name(
            path@,
            match canonical {
                Some(c) => Some(c@),
                None => None,
            },
            platform,
        ) {
            Some(name) => r matches Ok(s) && s@ == name,
            None => r matches Err(m) && m@
                == "path has no file name and cannot be canonicalised: "@ + path@,
        },
{
    if let Some(name) = path_name(path, platform) {
        return Ok(name);
    }
    match canonical {
        Some(c) => match path_name(c, platform) {
            Some(name) => Ok(name),
            None => Ok(string_copy(c)),
        },
        None => Err("path has no file name and cannot be canonicalised: ".to_owned().concat(path)),
    }
}

/// Where the progress of a transfer is kept: in the given directory, else in
/// the current one.
pub open spec fn state_file(
    state_dir: Option<Seq<char>>,
    transfer_id: Seq<char>,
    platform: Platform,
) -> Seq<char> {
    let name = "transfer_"@ + transfer_id + ".json"@;
    match state_dir {
        None => name,
        Some(dir) => as_parent(dir, platform) + name,
    }
}

/// Where the progress of a transfer is kept.
pub fn resolve_state_file(state_dir: Option<&str>, transfer_id: &str, platform: Platform) -> (r:
    String)
    ensures
        r@ == state_file(
            match state_dir {
                Some(dir) => Some(dir@),
                None => None,
            },
            transfer_id@,
            platform,
        ),
{
    let mut out: String = match state_dir {
        Some(dir) => parent_text(dir, platform),
        None => String::new(),
    };
    let ghost head = out@;
    out.append("transfer_");
    out.append(transfer_id);
    out.append(".json");
    assert(out@ =~= head + ("transfer_"@ + transfer_id@ + ".json"@));
    assert(out@ =~= state_file(
        match state_dir {
            Some(dir) => Some(dir@),
            None => None,
        },
        transfer_id@,
        platform,
    ));
    out
}

/// The files to record for a transfer that was sent: those of the summary, or
/// the path's own name where it lists none.
pub fn sent_files(summary: TransferSummary, base_name: String) -> (r: Vec<String>)
    ensures
        r@ == (if summary.files@.len() == 0 {
            seq![base_name]
        } else {
            summary.files@
        }),
{
    if summary.files.is_empty() {
        let mut files: Vec<String> = Vec::new();
        files.push(base_name);
        assert(files@ =~= seq![base_name]);
        files
    } else {
        summary.files
    }
}

/// What the receive loop does next.
#[derive(Debug)]
pub enum ReceiveOutcome {
    /// Wait for the next transfer.
    Completed,
    /// The peer went away: wait for the next.
    PeerDisconnected,
    /// End with this error.
    Fatal(Error),
}

/// What is noted of a receive, and how to go on.
pub open spec fn receive_noted(
    before: TransferRecord,
    result: Result<TransferSummary>,
    shown: Seq<char>,
    now: u64,
    after: TransferRecord,
    r: ReceiveOutcome,
) -> bool {
    &&& after.transfer_id == before.transfer_id
    &&& after.start_time == before.start_time
    &&& after.direction == before.direction
    &&& after.peer_address == before.peer_address
    &&& match result {
        Ok(summary) => {
            &&& r is Completed
            &&& after.end_time == now
            &&& after.duration_secs == elapsed(before.start_time, now)
            &&& after.status == (if summary.files@.len() == 0 {
                TransferStatus::Interrupted
            } else {
                TransferStatus::Completed
            })
            &&& after.files@ == summary.files@
            &&& after.bytes_transferred == (if summary.files@.len() == 0 {
                0
            } else {
                summary.bytes
            })
        },
        Err(e) => if e is Disconnected || e is Quic {
            r is PeerDisconnected && after == before
        } else {
            &&& r == ReceiveOutcome::Fatal(e)
            &&& after.end_time == now
            &&& after.duration_secs == elapsed(before.start_time, now)
            &&& after.status == TransferStatus::Failed
            &&& after.bytes_transferred == before.bytes_transferred
            &&& after.files@.len() == before.files@.len() + 1
            &&& after.files@.drop_last() == before.files@
            &&& after.files@.last()@ == "Error: "@ + shown
        },
    }
}

/// Takes the result of receiving: notes it in the record and says how to go
/// on. A transfer without files was rejected. A peer that goes away ends
/// nothing; the record is then not to be kept. `shown` is the error as it is
/// shown.
pub fn on_received(
    record: &mut TransferRecord,
    result: Result<TransferSummary>,
    shown: &str,
    now: u64,
) -> (r: ReceiveOutcome)
    ensures
        receive_noted(*old(record), result, shown@, now, *final(record), r),
{
    match result {
        Ok(summary) => {
            if summary.files.is_empty() {
                record.end_at(Vec::new(), 0, TransferStatus::Interrupted, now);
                assert(record.files@ =~= summary.files@);
            } else {
                record.end_at(summary.files, summary.bytes, TransferStatus::Completed, now);
            }
            ReceiveOutcome::Completed
        },
        Err(Error::Disconnected) | Err(Error::Quic(_)) => ReceiveOutcome::PeerDisconnected,
        Err(e) => {
            record.fail_at(string_copy(shown), now);
            ReceiveOutcome::Fatal(e)
        },
    }
}

/// An answer that accepts: `y` or `yes`, in upper or lower case.
pub open spec fn accepts(line: Seq<char>) -> bool {
    let word = ascii_lowered(trimmed(line));
    word == "y"@ || word == "yes"@
}

/// The decision on an offer.
pub open spec fn decision(
    auto_accept: bool,
    is_terminal: bool,
    answer: Option<Seq<char>>,
) -> AcceptDecision {
    if auto_accept {
        AcceptDecision::Accept
    } else if !is_terminal {
        AcceptDecision::Reject
    } else {
        match answer {
            Some(line) => if accepts(line) {
                AcceptDecision::Accept
            } else {
                AcceptDecision::Reject
            },
            None => AcceptDecision::Reject,
        }
    }
}

/// Decides on an offer: without asking where that was chosen, else by the
/// user's answer; without a terminal to ask at, or an answer, it is rejected.
pub fn accept_decision(auto_accept: bool, is_terminal: bool, answer: Option<&str>) -> (r:
    AcceptDecision)
    ensures
        r == decision(
            auto_accept,
            is_terminal,
            match answer {
                Some(line) => Some(line@),
                None => None,
            },
        ),
{
    if auto_accept {
        return AcceptDecision::Accept;
    }
    if !is_terminal {
        return AcceptDecision::Reject;
    }
    match answer {
        Some(line) => {
            let word: Vec<char> = to_ascii_lower(trim(line).as_str());
            proof {
                reveal_strlit("y");
                reveal_strlit("yes");
                if word@.len() == 1 && word@[0] == 'y' {
                    assert(word@ =~= "y"@);
                }
                if word@.len() == 3 && word@[0] == 'y' && word@[1] == 'e' && word@[2] == 's' {
                    assert(word@ =~= "yes"@);
                }
            }
            if (word.len() == 1 && word[0] == 'y') || (word.len() == 3 && word[0] == 'y' && word[1]
                == 'e' && word[2] == 's') {
                AcceptDecision::Accept
            } else {
                AcceptDecision::Reject
            }
        },
        None => AcceptDecision::Reject,
    }
}

/// How two ends of the same machine that met through a rendezvous server reach
/// each other.
#[derive(Debug, Clone, Copy, PartialEq, Eq, Structural)]
pub struct SelfLoop {
    /// Through the relay.
    pub relayed: bool,
    /// Whom the first end dials.
    pub peer_of_a: SocketAddr,
    /// Whom the second end dials.
    pub peer_of_b: SocketAddr,
}

/// Takes what the server answered to both ends: both have to be told the same
/// way.
pub fn self_loop(a: &MatchOutcome, b: &MatchOutcome) -> (r: core::result::Result<SelfLoop, String>)
    ensures
        match (*a, *b) {
            (MatchOutcome::Direct(x), MatchOutcome::Direct(y)) => r == Ok::<SelfLoop, String>(
                SelfLoop { relayed: false, peer_of_a: x.endpoint, peer_of_b: y.endpoint },
            ),
            (MatchOutcome::Relay(x), MatchOutcome::Relay(y)) => r == Ok::<SelfLoop, String>(
                SelfLoop {
                    relayed: true,
                    peer_of_a: x.relay_endpoint,
                    peer_of_b: y.relay_endpoint,
                },
            ),
            _ => r matches Err(m) && m@
                == "rendezvous returned mixed Direct/Relay outcomes (unsupported)"@,
        },
{
    match (a, b) {
        (MatchOutcome::Direct(x), MatchOutcome::Direct(y)) => Ok(
            SelfLoop { relayed: false, peer_of_a: x.endpoint, peer_of_b: y.endpoint },
        ),
        (MatchOutcome::Relay(x), MatchOutcome::Relay(y)) => Ok(
            SelfLoop {
                relayed: true,
                peer_of_a: x.relay_endpoint,
                peer_of_b: y.relay_endpoint,
            },
        ),
        _ => Err("rendezvous returned mixed Direct/Relay outcomes (unsupported)".to_owned()),
    }
}

/// Nothing is received without consent: an offer is accepted if and only if
/// that was chosen beforehand, or somebody at a terminal answers with `y` or
/// `yes`, in whatever case and with whatever white space around it.
pub proof fn law_nothing_is_accepted_without_consent(
    auto_accept: bool,
    is_terminal: bool,
    answer: Option<Seq<char>>,
)
    ensures
        decision(auto_accept, is_terminal, answer) == AcceptDecision::Accept <==> {
            ||| auto_accept
            ||| {
                &&& is_terminal
                &&& answer is Some
                &&& is_small_form("y"@, trimmed(answer->0)) || is_small_form(
                    "yes"@,
                    trimmed(answer->0),
                )
            }
        },
{
    if answer is Some {
        lemma_small_form("y"@, trimmed(answer->0));
        lemma_small_form("yes"@, trimmed(answer->0));
    }
}

/// A session is planned as asked for: a rendezvous server that is named is used,
/// with a code or not at all; a peer is dialled only by a client that names it,
/// looks for none and gives the fingerprint to accept; a client that is to look
/// for a peer does; and whoever is no client listens.
pub proof fn law_session_is_planned_as_asked(
    params: SessionParams,
    default_role: Seq<char>,
    r: core::result::Result<SessionPlan, String>,
)
    requires
        params.plans(default_role, r),
    ensures
        ({
            let client = match params.role {
                Some(role) => role@ == "client"@,
                None => default_role == "client"@,
            };
            let meets = params.rendezvous is Some;
            &&& (r is Ok && r->Ok_0 is Rendezvous) <==> meets && params.code is Some
            &&& (r is Ok && r->Ok_0 is Listen) <==> !meets && !client
            &&& (r is Ok && r->Ok_0 is Discover) <==> !meets && client && params.discover
            &&& (r is Ok && r->Ok_0 is Dial) <==> !meets && client && !params.discover
                && params.peer is Some && params.peer_fingerprint is Some && fingerprint_written(
                params.peer_fingerprint->0@,
            ) is Some
            &&& r matches Ok(SessionPlan::Dial { peer, fingerprint }) ==> peer@ == params.peer->0@
                && Some(fingerprint@) == fingerprint_written(params.peer_fingerprint->0@)
            &&& r matches Ok(SessionPlan::Rendezvous { server, code }) ==> server@
                == params.rendezvous->0@ && code@ == params.code->0@
        }),
{
}

/// Every transfer has a file of its own to keep its progress in, in the
/// directory that was chosen: different transfers never share one.
pub proof fn law_transfers_share_no_state_file(
    dir: Option<Seq<char>>,
    a: Seq<char>,
    b: Seq<char>,
    platform: Platform,
)
    ensures
        state_file(dir, a, platform) == state_file(dir, b, platform) ==> a == b,
        dir is Some ==> state_file(dir, a, platform).len() >= dir->0.len() && state_file(
            dir,
            a,
            platform,
        ).take(dir->0.len() as int) == dir->0,
        dir is None ==> state_file(dir, a, platform) == "transfer_"@ + a + ".json"@,
{
    let head = "transfer_"@;
    let tail = ".json"@;
    let front = match dir {
        Some(d) => as_parent(d, platform),
        None => Seq::empty(),
    };
    let x = front + (head + a + tail);
    let y = front + (head + b + tail);
    assert(dir is None ==> state_file(dir, a, platform) =~= x);
    assert(dir is None ==> state_file(dir, b, platform) =~= y);
    if x == y {
        assert(x.len() == front.len() + head.len() + a.len() + tail.len());
        assert(y.len() == front.len() + head.len() + b.len() + tail.len());
        assert(a.len() == b.len());
        let n = (front.len() + head.len()) as int;
        assert(a =~= x.subrange(n, n + a.len()));
        assert(b =~= y.subrange(n, n + b.len()));
    }
    if dir is Some {
        assert(x.take(dir->0.len() as int) =~= dir->0);
    }
}

/// A path goes by the name it ends in; where it ends in none, by the name that
/// the directory it stands for ends in, or else by that directory. Only a path
/// that has no name and stands for nothing has none.
pub proof fn law_paths_go_by_their_last_name(
    path: Seq<char>,
    canonical: Option<Seq<char>>,
    platform: Platform,
)
    ensures
        last_name(path, platform) is Some ==> base_name(path, canonical, platform) == last_name(
            path,
            platform,
        ),
        base_name(path, canonical, platform) is None <==> last_name(path, platform) is None
            && canonical is None,
        last_name(path, platform) is None && canonical is Some && last_name(canonical->0, platform)
            is Some ==> base_name(path, canonical, platform) == last_name(canonical->0, platform),
        last_name(path, platform) is None && canonical is Some && last_name(canonical->0, platform)
            is None ==> base_name(path, canonical, platform) == canonical,
{
}

/// A transfer proposes what the command line says: chunks of as many kilobytes,
/// and compression, level, adaptation and speed as given.
pub proof fn law_transfer_proposes_what_was_typed(params: TransferParams, r: ConfigMessage)
    requires
        call_ensures(transfer_config, (&params,), r),
        params.chunk_size * 1024 <= u32::MAX,
    ensures
        r.chunk_size == 1024 * params.chunk_size,
        r.compression_enabled == params.compress,
        r.compression_level == params.compress_level,
        r.adaptive_compression == params.adaptive,
        r.bandwidth_limit == params.max_speed,
{
}

/// What is recorded of a transfer that was sent is never nothing: the files of
/// its summary, or, where that lists none, the name that its path goes by.
pub proof fn law_sent_transfers_name_their_files(
    summary: TransferSummary,
    base_name: String,
    r: Vec<String>,
)
    requires
        call_ensures(sent_files, (summary, base_name), r),
    ensures
        r@.len() > 0,
        summary.files@.len() > 0 ==> r@ == summary.files@,
        summary.files@.len() == 0 ==> r@.len() == 1 && r@[0] == base_name,
{
}

/// Two ends of one machine reach each other the way that both were told, each at
/// the address that it was told; told differently, they do not.
pub proof fn law_both_ends_go_the_same_way(
    a: MatchOutcome,
    b: MatchOutcome,
    r: core::result::Result<SelfLoop, String>,
)
    requires
        call_ensures(self_loop, (&a, &b), r),
    ensures
        r is Ok <==> (a is Direct <==> b is Direct),
        r matches Ok(l) ==> (l.relayed <==> a is Relay),
        a is Direct && b is Direct ==> r->Ok_0.peer_of_a == a->Direct_0.endpoint
            && r->Ok_0.peer_of_b == b->Direct_0.endpoint,
        a is Relay && b is Relay ==> r->Ok_0.peer_of_a == a->Relay_0.relay_endpoint
            && r->Ok_0.peer_of_b == b->Relay_0.relay_endpoint,
{
}

/// A fingerprint on the command line is taken as it was shown: the text that a
/// device shows for its own is read as that fingerprint. None is none.
pub proof fn law_typed_fingerprint_is_the_one_shown(
    params: SessionParams,
    fp: Seq<u8>,
    r: core::result::Result<Option<Fingerprint>, String>,
)
    requires
        call_ensures(SessionParams::parsed_fingerprint, (&params,), r),
        fp.len() == 32,
    ensures
        params.peer_fingerprint is None ==> r == Ok::<Option<Fingerprint>, String>(None),
        params.peer_fingerprint is Some && params.peer_fingerprint->0@ == hex_chars(fp) ==> r is Ok
            && r->Ok_0 is Some && r->Ok_0->0@ == fp,
        params.peer_fingerprint is Some && params.peer_fingerprint->0@.len() != 64 ==> r is Err,
{
    law_fingerprints_are_read_back(
        fp,
        match params.peer_fingerprint {
            Some(text) => text@,
            None => Seq::empty(),
        },
    );
}

/// A receive is recorded as it went: completed with its files and bytes; ended
/// early where there were none; failed, with the error, where it failed. A peer
/// that goes away leaves no mark, and the next is waited for; only another error
/// ends the program. When it began, with whom and in which direction stays.
pub proof fn law_receives_are_recorded_as_they_went(
    before: TransferRecord,
    result: Result<TransferSummary>,
    shown: Seq<char>,
    now: u64,
    after: TransferRecord,
    r: ReceiveOutcome,
)
    requires
        receive_noted(before, result, shown, now, after, r),
    ensures
        ({
            let gone = result is Err && (result->Err_0 is Disconnected || result->Err_0 is Quic);
            &&& r is Completed <==> result is Ok
            &&& r is PeerDisconnected <==> gone
            &&& r is Fatal ==> r->Fatal_0 == result->Err_0
            &&& gone ==> after == before
            &&& result is Ok && result->Ok_0.files@.len() > 0 ==> after.status is Completed
                && after.files@ == result->Ok_0.files@ && after.bytes_transferred
                == result->Ok_0.bytes
            &&& result is Ok && result->Ok_0.files@.len() == 0 ==> after.status is Interrupted
                && after.bytes_transferred == 0
            &&& r is Fatal ==> after.status is Failed && after.files@.len() == before.files@.len() + 1
            &&& !gone ==> after.end_time == now && (before.start_time <= now ==> before.start_time
                + after.duration_secs == now)
            &&& after.start_time == before.start_time
            &&& after.transfer_id == before.transfer_id
            &&& after.direction == before.direction
            &&& after.peer_address == before.peer_address
        }),
{
}

} // verus!
