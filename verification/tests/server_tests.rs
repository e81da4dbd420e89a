//! The server's request execution: the same exchanges the network
//! collaborators perform, minus the sockets.

use kvs::client::KvsClient;
use kvs::common::{Action, Command, Response};
use kvs::kv::KvStore;
use kvs::server::KvsServer;

fn server() -> KvsServer<KvStore> {
    KvsServer::new("127.0.0.1:4000".to_string(), KvStore::open(0, Vec::new()))
}

#[test]
fn network_parity_exchange() {
    let mut srv = server();
    let set = srv.exec(Command::new(Action::SET, "foo".to_string(), "bar".to_string()));
    assert!(matches!(set, Response::Okay(None)));
    let get = srv.exec(Command::new(Action::GET, "foo".to_string(), String::new()));
    match get {
        Response::Okay(Some(v)) => assert_eq!(v, "bar"),
        other => panic!("unexpected response {:?}", other),
    }
    let rm = srv.exec(Command::new(Action::RM, "foo".to_string(), String::new()));
    assert!(matches!(rm, Response::Okay(None)));
    let rm_again = srv.exec(Command::new(Action::RM, "foo".to_string(), String::new()));
    match rm_again {
        Response::Error(msg) => assert_eq!(msg, "Key not found"),
        other => panic!("unexpected response {:?}", other),
    }
}

#[test]
fn get_of_missing_key_reports_not_found() {
    let mut srv = server();
    let get = srv.exec(Command::new(Action::GET, "nope".to_string(), String::new()));
    match get {
        Response::Error(msg) => assert_eq!(msg, "Key not found"),
        other => panic!("unexpected response {:?}", other),
    }
}

#[test]
fn set_overwrites_through_the_server() {
    let mut srv = server();
    srv.exec(Command::new(Action::SET, "k".to_string(), "v1".to_string()));
    srv.exec(Command::new(Action::SET, "k".to_string(), "v2".to_string()));
    let get = srv.exec(Command::new(Action::GET, "k".to_string(), String::new()));
    match get {
        Response::Okay(Some(v)) => assert_eq!(v, "v2"),
        other => panic!("unexpected response {:?}", other),
    }
}

#[test]
fn server_keeps_its_address() {
    let srv = server();
    assert_eq!(srv.address(), "127.0.0.1:4000");
}

#[test]
fn command_carries_its_fields() {
    let _client = KvsClient::new();
    let cmd = Command::new(Action::SET, "k".to_string(), "v".to_string());
    assert!(matches!(cmd.action, Action::SET));
    assert_eq!(cmd.key, "k");
    assert_eq!(cmd.value, "v");
}
