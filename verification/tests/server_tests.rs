use arch_mirror::server::{Client, ClientManager, Server};

#[test]
fn client_ids_count_up_from_one() {
    let mut m = ClientManager::new();
    assert_eq!(m.gen_client_id(), 1);
    assert_eq!(m.gen_client_id(), 2);
    assert_eq!(m.gen_client_id(), 3);
}

#[test]
fn client_keeps_its_id() {
    let c = Client::new(42);
    assert_eq!(c.client_id(), 42);
}

#[test]
fn server_registers_clients_under_fresh_ids() {
    let rt = tokio::runtime::Runtime::new().unwrap();
    let listener = rt.block_on(tokio::net::TcpListener::bind("127.0.0.1:0")).unwrap();
    let mut server = Server::from_listener(listener);
    assert_eq!(server.client_count(), 0);
    assert!(server.listener().local_addr().is_ok());
    let a = server.next_client_id();
    let handle_a = rt.spawn(async {});
    server.add_client_handler(a, handle_a);
    let b = server.next_client_id();
    let handle_b = rt.spawn(async {});
    server.add_client_handler(b, handle_b);
    assert_eq!((a, b), (1, 2));
    assert_eq!(server.client_count(), 2);
}
