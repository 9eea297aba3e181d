use smartfox::packet::Packet;
use smartfox::{Delegate, SessionError, SmartFoxService, SmartFoxServiceState};

/// A test delegate that records what it was called with and answers with
/// canned packets.
struct Recorder {
    logins: Vec<(String, String, String)>,
    requests: Vec<Packet>,
    replies: Vec<Packet>,
}

impl Recorder {
    fn new(replies: Vec<Packet>) -> Recorder {
        Recorder {
            logins: Vec::new(),
            requests: Vec::new(),
            replies,
        }
    }
}

impl Delegate for Recorder {
    fn login(&mut self, room: &str, un: &str, pw: &str) -> Vec<Packet> {
        self.logins
            .push((room.to_string(), un.to_string(), pw.to_string()));
        self.replies.clone()
    }

    fn request(&mut self, packet: Packet) -> Vec<Packet> {
        self.requests.push(packet);
        self.replies.clone()
    }
}

const VERCHK: &str = "<msg t='sys'><body action='verChk' r='0'><ver v='166' /></body></msg>";
const API_OK: &str = "<msg t='sys'><body action='apiOK' r='0'></body></msg>";
const API_ERR: &str = "<msg t='sys'><body action='apiERR' r='0'></body></msg>";

fn login_message(room: &str, nick: &str, pword: &str) -> String {
    format!(
        "<msg t='sys'><body action='login' r='0'><login z='{}'><nick><![CDATA[{}]]></nick><pword><![CDATA[{}]]></pword></login></body></msg>",
        room, nick, pword
    )
}

fn packet(name: &str, room: &str, data: &str) -> Packet {
    Packet {
        name: name.to_string(),
        room: room.to_string(),
        data: data.to_string(),
    }
}

#[test]
fn handshake_accepts_version_check() {
    let mut service = SmartFoxService::new(Recorder::new(vec![]));
    assert_eq!(service.state, SmartFoxServiceState::Handshake);
    let r = service.call(VERCHK.to_string());
    assert_eq!(r, Ok(API_OK.to_string()));
    assert_eq!(service.state, SmartFoxServiceState::Login);
}

#[test]
fn handshake_rejects_wrong_version_softly() {
    let mut service = SmartFoxService::new(Recorder::new(vec![]));
    let r = service.call(
        "<msg t='sys'><body action='verChk' r='0'><ver v='999' /></body></msg>".to_string(),
    );
    assert_eq!(r, Ok(API_ERR.to_string()));
    assert_eq!(service.state, SmartFoxServiceState::Error);
    let after = service.call("anything at all".to_string());
    assert_eq!(after, Err(SessionError::InvalidData));
}

#[test]
fn login_extracts_captures_and_joins_replies() {
    let replies = vec![packet("a", "", "one"), packet("b", "", "two")];
    let mut service = SmartFoxService::new(Recorder::new(replies));
    service.call(VERCHK.to_string()).unwrap();
    let r = service.call(login_message("lobby", "alice", "p%ss_1"));
    assert_eq!(r, Ok("%xt%a%1%0one%\0%xt%b%1%0two%".to_string()));
    assert_eq!(service.state, SmartFoxServiceState::Running);
    assert_eq!(
        service.delegate.logins,
        vec![(
            "lobby".to_string(),
            "alice".to_string(),
            "p%ss_1".to_string()
        )]
    );
}

#[test]
fn login_template_is_found_inside_surrounding_bytes() {
    let replies = vec![packet("w", "", "d")];
    let mut service = SmartFoxService::new(Recorder::new(replies));
    service.call(VERCHK.to_string()).unwrap();
    let framed = format!("garbage{}trailing", login_message("lobby", "bob", "pw"));
    let r = service.call(framed);
    assert_eq!(r, Ok("%xt%w%1%0d%".to_string()));
    assert_eq!(service.state, SmartFoxServiceState::Running);
    assert_eq!(
        service.delegate.logins,
        vec![("lobby".to_string(), "bob".to_string(), "pw".to_string())]
    );
}

#[test]
fn login_rejects_malformed_message_hard() {
    let mut service = SmartFoxService::new(Recorder::new(vec![]));
    service.call(VERCHK.to_string()).unwrap();
    let r = service.call("<msg t='sys'><body action='login' r='0'>bad</body></msg>".to_string());
    assert_eq!(r, Err(SessionError::InvalidData));
    assert_eq!(service.state, SmartFoxServiceState::Error);
}

#[test]
fn login_requires_non_empty_room() {
    let mut service = SmartFoxService::new(Recorder::new(vec![]));
    service.call(VERCHK.to_string()).unwrap();
    let r = service.call(login_message("", "alice", "pw"));
    assert_eq!(r, Err(SessionError::InvalidData));
    assert_eq!(service.state, SmartFoxServiceState::Error);
}

#[test]
fn running_parses_request_and_stays_running() {
    let replies = vec![packet("ok", "", "{}")];
    let mut service = SmartFoxService::new(Recorder::new(replies));
    service.call(VERCHK.to_string()).unwrap();
    service.call(login_message("lobby", "alice", "pw")).unwrap();
    let r = service.call("%xt%dwd%1%0%".to_string());
    assert_eq!(r, Ok("%xt%ok%1%0{}%".to_string()));
    assert_eq!(service.state, SmartFoxServiceState::Running);
    assert_eq!(service.delegate.requests, vec![packet("dwd", "", "")]);
}

#[test]
fn error_state_fails_every_call() {
    let mut service = SmartFoxService::new(Recorder::new(vec![]));
    service.call("nonsense".to_string()).unwrap();
    assert_eq!(service.state, SmartFoxServiceState::Error);
    for input in ["", VERCHK, "%xt%dwd%1%0%", "anything"] {
        assert_eq!(
            service.call(input.to_string()),
            Err(SessionError::InvalidData)
        );
        assert_eq!(service.state, SmartFoxServiceState::Error);
    }
}

#[test]
fn running_with_no_replies_returns_empty_message() {
    let mut service = SmartFoxService::new(Recorder::new(vec![]));
    service.call(VERCHK.to_string()).unwrap();
    service.call(login_message("z", "n", "")).unwrap();
    let r = service.call("whatever".to_string());
    assert_eq!(r, Ok("".to_string()));
}
