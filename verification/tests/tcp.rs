use cns_rust::tcp::{route_host, Route};

fn routed(host: &str) -> (Route, String) {
    let dest = route_host(String::from(host));
    (dest.route, dest.address)
}

#[test]
fn route_host_appends_the_default_port() {
    assert_eq!(routed("example.com"), (Route::Tcp, String::from("example.com:80")));
    assert_eq!(routed("m.quanye.org"), (Route::Tcp, String::from("m.quanye.org:80")));
    assert_eq!(routed(""), (Route::Tcp, String::from(":80")));
    assert_eq!(routed("53"), (Route::Tcp, String::from("53:80")));
    assert_eq!(routed("h\u{f4}te"), (Route::Tcp, String::from("h\u{f4}te:80")));
}

#[test]
fn route_host_keeps_an_explicit_port() {
    assert_eq!(routed("example.com:443"), (Route::Tcp, String::from("example.com:443")));
    assert_eq!(routed("example.com:"), (Route::Tcp, String::from("example.com:")));
    assert_eq!(routed("[::1]"), (Route::Tcp, String::from("[::1]")));
    assert_eq!(routed("example.com:530"), (Route::Tcp, String::from("example.com:530")));
    assert_eq!(routed("example.com:153"), (Route::Tcp, String::from("example.com:153")));
    assert_eq!(routed("a:5"), (Route::Tcp, String::from("a:5")));
}

#[test]
fn route_host_sends_port_53_to_the_dns_relay() {
    assert_eq!(routed("8.8.8.8:53"), (Route::Dns, String::from("8.8.8.8:53")));
    assert_eq!(routed(":53"), (Route::Dns, String::from(":53")));
    assert_eq!(routed("[2001:4860:4860::8888]:53"), (Route::Dns, String::from("[2001:4860:4860::8888]:53")));
    assert_eq!(routed("h\u{f4}te:53"), (Route::Dns, String::from("h\u{f4}te:53")));
}
