use tomloper::operator::PathOperator;
use tomloper::read::{get_index, get_key, path, path_index, resolve, TomlOpt};
use tomloper::segment::{build_path, is_string_numeric, parse_index};
use tomloper::tree::{Entry, Node};
use tomloper::write::get_key_mut;

fn from_toml(v: &toml::Value) -> Node {
    match v {
        toml::Value::String(s) => Node::Str(s.clone()),
        toml::Value::Integer(i) => Node::Int(*i),
        toml::Value::Float(f) => Node::Float(f.to_bits()),
        toml::Value::Boolean(b) => Node::Bool(*b),
        toml::Value::Datetime(d) => Node::Datetime(d.to_string()),
        toml::Value::Array(items) => Node::Array(items.iter().map(from_toml).collect()),
        toml::Value::Table(table) => Node::Table(
            table
                .iter()
                .map(|(k, v)| Entry { key: k.clone(), value: from_toml(v) })
                .collect(),
        ),
    }
}

fn load_test_toml() -> Node {
    let str_toml = r#"
ip = "127.0.0.1"
[host]
ip = "127.0.1.1"
port = 8080
protocol = ["tcp", "udp", "mmp"]
[[service]]
name = "serv_1"
desc = "first server"
[[service]]
name = "serv_2"
desc = "another server"
[misc]
int = 1234
float = 3.14
bool = true
"#;
    let v: toml::Value = str_toml.parse().unwrap();
    from_toml(&v)
}

#[test]
fn path_test() {
    let v = load_test_toml();
    assert_eq!(path(Some(&v), "ip").unwrap().as_str(), Some("127.0.0.1"));
    assert_eq!(get_key(&v, "ip").unwrap().as_str(), Some("127.0.0.1"));

    let op = TomlOpt::path(&v);
    let ip = op.at("ip");
    assert_eq!(ip.valop.unwrap().as_str(), Some("127.0.0.1"));

    let ip = op.at("host").at("ip");
    assert_eq!(ip.valop.unwrap().as_str(), Some("127.0.1.1"));

    let host = TomlOpt::path(&v).at("host");
    let ip = host.at("ip");
    assert_eq!(ip.valop.unwrap().as_str(), Some("127.0.1.1"));
    let port = host.at("port");
    assert_eq!(port.valop.unwrap().as_integer(), Some(8080));

    let proto = host.at("protocol").at_index(1);
    assert_eq!(proto.valop.unwrap().as_str(), Some("udp"));

    let proto = v.path().at("host").at("protocol").at_index(2);
    assert_eq!(proto.unpath().unwrap().as_str(), Some("mmp"));

    let proto = v.path().at("host/protocol/2");
    assert_eq!(proto.unpath().unwrap().as_str(), Some("mmp"));

    let proto = v.pathto("/host/protocol/2").unpath();
    assert_eq!(proto.unwrap().as_str(), Some("mmp"));

    let server = v.path().at("service").at_index(0).at("name");
    assert_eq!(server.unpath().unwrap().as_str(), Some("serv_1"));

    let mut mv = load_test_toml();
    let ip = get_key_mut(&mut mv, "ip").unwrap();
    *ip = Node::Str(String::from("127.0.0.2"));
    assert_eq!(mv.path().at("ip").unpath().unwrap().as_str(), Some("127.0.0.2"));
}

#[test]
fn path_none_test() {
    let v = load_test_toml();

    let root = v.path();
    assert_eq!(root.unpath().is_none(), false);

    let node = root.at("ip");
    assert_eq!(node.unpath().is_none(), false);
    let node = root.at("IP");
    assert_eq!(node.unpath().is_none(), true);

    let node = root.at("host").at("protocol");
    assert_eq!(node.unpath().is_none(), false);
    let node = root.at("host").at("protocol").at_index(1);
    assert_eq!(node.unpath().is_none(), false);
    let node = root.at("host").at("protocol").at_index(3);
    assert_eq!(node.unpath().is_none(), true);

    let node = root.at("service").at_index(0);
    assert_eq!(node.unpath().is_none(), false);
    let node = root.at("service").at_index(0).at("description");
    assert_eq!(node.unpath().is_none(), true);
    let node = root.at("service").at_index(0).at("desc");
    assert_eq!(node.unpath().is_none(), false);
    let node = root.at("service").at_index(2);
    assert_eq!(node.unpath().is_none(), true);
}

#[test]
fn path_build_test() {
    let pseg = build_path("");
    assert_eq!(pseg.paths.is_empty(), false);
    assert_eq!(pseg.paths, vec![""]);

    let pseg = build_path("/");
    assert_eq!(pseg.paths.is_empty(), false);
    assert_eq!(pseg.paths, vec!["", ""]);

    let pseg = build_path("//");
    assert_eq!(pseg.paths, vec!["", "", ""]);

    let pseg = build_path("/path/to/leaf");
    assert_eq!(pseg.paths, vec!["", "path", "to", "leaf"]);

    let pseg = build_path("path/to/leaf");
    assert_eq!(pseg.paths, vec!["path", "to", "leaf"]);

    let pseg = build_path("path/to//leaf");
    assert_eq!(pseg.paths, vec!["path", "to", "", "leaf"]);

    let pseg = build_path("path.to.leaf");
    assert_eq!(pseg.paths, vec!["path", "to", "leaf"]);

    let pseg = build_path("path/to.leaf");
    assert_eq!(pseg.paths, vec!["path", "to", "leaf"]);

    let pseg = build_path("path/to.leaf/");
    assert_eq!(pseg.paths, vec!["path", "to", "leaf", ""]);
}

#[test]
fn pipe_test() {
    let v = load_test_toml();

    let ip = v.path().at("ip").or_str("");
    assert_eq!(ip, "127.0.0.1");

    let ip = v.path().at("host").at("ip").or_str("");
    assert_eq!(ip, "127.0.1.1");

    let ip_default = "127";
    let ip = v.path().at("host").at("ip").or_str(ip_default);
    assert_eq!(ip, "127.0.1.1");

    let ip_default: String = String::from("127");
    let ip = v.path().at("host").at("ip").or_string(ip_default);
    assert_eq!(ip, "127.0.1.1");

    let port = v.path().at("host").at("port").or_int(0);
    assert_eq!(port, 8080);

    let port_default = 80;
    let port = v.path().at("host").at("port").or_int(port_default);
    assert_eq!(port, 8080);
    assert_eq!(port_default, 80);

    let misc = v.path().at("misc");
    let value = misc.at("int").or_int(0);
    assert_eq!(value, 1234);
    let value = f64::from_bits(misc.at("float").or_float_bits(0.0f64.to_bits()));
    assert_eq!(value, 3.14);
    let value = misc.at("bool").or_bool(false);
    assert_eq!(value, true);

    let value = v.pathto("/misc/int").or_int(0);
    assert_eq!(value, 1234);
    let value = v.pathto("misc/int").or_int(0);
    assert_eq!(value, 1234);
    let value = v.pathto("misc/int/").or_int(0);
    assert_eq!(value, 1234);
    let value = v.pathto("misc.int").or_int(0);
    assert_eq!(value, 1234);
    let value = v.pathto("/misc/./int/").or_int(0);
    assert_eq!(value, 1234);
}

#[test]
fn tokenizer_keeps_every_empty_segment() {
    assert_eq!(build_path("a/b.c").paths, vec!["a", "b", "c"]);
    assert_eq!(build_path("a/b.c/").paths, vec!["a", "b", "c", ""]);
    assert_eq!(build_path(".").paths, vec!["", ""]);
    assert_eq!(build_path("./").paths, vec!["", "", ""]);
    assert_eq!(build_path("a").paths, vec!["a"]);
    assert_eq!(build_path("h\u{e9}/\u{4e2d}.x").paths, vec!["h\u{e9}", "\u{4e2d}", "x"]);
}

#[test]
fn segment_count_is_separators_plus_one() {
    for p in ["", "/", "a", "a.b", "//a..b//", "x/y.z/w"] {
        let separators = p.chars().filter(|c| *c == '/' || *c == '.').count();
        let segs = build_path(p).paths;
        assert_eq!(segs.len(), separators + 1);
        for s in &segs {
            assert!(!s.contains('/') && !s.contains('.'));
        }
    }
}

#[test]
fn numeric_strings() {
    assert!(is_string_numeric("0123456789"));
    assert!(is_string_numeric(""));
    assert!(!is_string_numeric("12a"));
    assert!(!is_string_numeric("-1"));
    assert!(!is_string_numeric("1.5"));
    assert!(!is_string_numeric("\u{0663}"));
}

#[test]
fn index_parsing() {
    assert_eq!(parse_index("0"), Some(0));
    assert_eq!(parse_index("007"), Some(7));
    assert_eq!(parse_index("1234"), Some(1234));
    assert_eq!(parse_index(""), Some(0));
    assert_eq!(parse_index("12x"), None);
    assert_eq!(parse_index(&usize::MAX.to_string()), Some(usize::MAX));
    assert_eq!(parse_index("18446744073709551616"), None);
    assert_eq!(parse_index("99999999999999999999999999"), None);
}

#[test]
fn index_beyond_the_machine_is_absent() {
    let v = load_test_toml();
    assert!(v.pathto("host/protocol/99999999999999999999999999").unpath().is_none());
    assert!(v.pathto("host/protocol/3").unpath().is_none());
    assert!(v.pathto("service/2").unpath().is_none());
    assert!(v.pathto("service/1").unpath().is_some());
}

#[test]
fn resolve_classifies_segments() {
    let v = load_test_toml();
    // an empty segment stays in place
    assert_eq!(resolve(&v, ""), Some(&v));
    // a key on a table
    assert_eq!(resolve(&v, "ip").unwrap().as_str(), Some("127.0.0.1"));
    // digits are an index: no index into a table, no key into an array
    assert!(resolve(&v, "0").is_none());
    let protocol = v.pathto("host.protocol").unpath().unwrap();
    assert_eq!(resolve(protocol, "0").unwrap().as_str(), Some("tcp"));
    assert!(resolve(protocol, "tcp").is_none());
    // a scalar has no children
    let port = v.pathto("host.port").unpath().unwrap();
    assert!(resolve(port, "x").is_none());
    assert!(resolve(port, "0").is_none());
    assert!(get_key(port, "x").is_none());
    assert!(get_index(port, 0).is_none());
}

#[test]
fn absent_stays_absent() {
    let v = load_test_toml();
    assert!(path(None, "ip").is_none());
    assert!(path_index(None, 0).is_none());
    let gone = v.path().at("nothing");
    assert!(gone.at("ip").unpath().is_none());
    assert!(gone.at_index(0).unpath().is_none());
    assert_eq!(gone.at("a").at("b").or_int(7), 7);
}

#[test]
fn single_step_takes_the_literal_key_first() {
    let v = Node::Table(vec![
        Entry { key: "a.b".to_string(), value: Node::Int(1) },
        Entry {
            key: "a".to_string(),
            value: Node::Table(vec![Entry { key: "b".to_string(), value: Node::Int(2) }]),
        },
        Entry { key: "7".to_string(), value: Node::Int(3) },
    ]);
    // one step finds the key with the separator in it; the path cannot
    assert_eq!(v.path().at("a.b").or_int(0), 1);
    assert_eq!(v.pathto("a.b").or_int(0), 2);
    assert_eq!(v.path().at("a/b").or_int(0), 2);
    // one step finds a key made of digits; the path reads it as an index
    assert_eq!(v.path().at("7").or_int(0), 3);
    assert_eq!(v.pathto("7").or_int(0), 0);
    // one step by a string is no index
    let arr = Node::Array(vec![Node::Int(10), Node::Int(11)]);
    assert_eq!(arr.path().at("1").or_int(0), 0);
    assert_eq!(arr.path().at_index(1).or_int(0), 11);
    assert_eq!(arr.pathto("1").or_int(0), 11);
    assert_eq!(arr.path().at("/1").or_int(0), 11);
    // the empty path stays at the root, the empty step does not
    assert_eq!(arr.pathto("").unpath(), Some(&arr));
    assert!(arr.path().at("").unpath().is_none());
}

#[test]
fn first_entry_with_a_key_counts() {
    let v = Node::Table(vec![
        Entry { key: "k".to_string(), value: Node::Int(1) },
        Entry { key: "k".to_string(), value: Node::Int(2) },
    ]);
    assert_eq!(v.path().at("k").or_int(0), 1);
}

#[test]
fn extract_gives_value_of_matching_kind() {
    let v = load_test_toml();
    assert_eq!(v.pathto("misc/int").or_int(-1), 1234);
    assert_eq!(v.pathto("misc/bool").or_bool(false), true);
    assert_eq!(f64::from_bits(v.pathto("misc/float").or_float_bits(1.0f64.to_bits())), 3.14);
    assert_eq!(v.pathto("host/ip").or_str("d"), "127.0.1.1");
    assert_eq!(v.pathto("host/ip").or_string("d".to_string()), "127.0.1.1");
}

#[test]
fn extract_gives_default_where_absent() {
    let v = load_test_toml();
    assert_eq!(v.pathto("misc/none").or_int(-1), -1);
    assert_eq!(v.pathto("misc/none").or_bool(true), true);
    assert_eq!(v.pathto("misc/none").or_float_bits(2.5f64.to_bits()), 2.5f64.to_bits());
    assert_eq!(v.pathto("misc/none").or_str("d"), "d");
    assert_eq!(v.pathto("misc/none").or_string("d".to_string()), "d");
}

#[test]
fn extract_never_converts() {
    let v = load_test_toml();
    // an integer against a floating-point default, and the other way round
    assert_eq!(v.pathto("misc/int").or_float_bits(0.5f64.to_bits()), 0.5f64.to_bits());
    assert_eq!(v.pathto("misc/float").or_int(9), 9);
    assert_eq!(v.pathto("misc/int").or_bool(false), false);
    assert_eq!(v.pathto("misc/bool").or_int(9), 9);
    assert_eq!(v.pathto("misc/int").or_str("d"), "d");
    assert_eq!(v.pathto("host/ip").or_int(9), 9);
    // a table and an array hold no scalar
    assert_eq!(v.pathto("host").or_int(9), 9);
    assert_eq!(v.pathto("host/protocol").or_str("d"), "d");
}

#[test]
fn datetime_is_carried_and_not_read() {
    let v: toml::Value = "when = 1979-05-27T07:32:00Z\n".parse().unwrap();
    let v = from_toml(&v);
    let when = v.path().at("when");
    assert!(when.unpath().is_some());
    assert_eq!(when.or_str("d"), "d");
    assert_eq!(when.or_int(1), 1);
    assert_eq!(when.unpath().unwrap().as_str(), None);
}

#[test]
fn separators_are_equivalent() {
    let v = load_test_toml();
    let a = v.pathto("misc/int").unpath();
    let b = v.pathto("misc.int").unpath();
    let c = v.pathto("/misc/./int/").unpath();
    assert_eq!(a, Some(&Node::Int(1234)));
    assert_eq!(a, b);
    assert_eq!(a, c);
    assert_eq!(v.pathto("service.1.name").or_str(""), "serv_2");
    assert_eq!(v.pathto("service/1/name").or_str(""), "serv_2");
}

#[test]
fn navigation_composes() {
    let v = load_test_toml();
    let chained = v.pathto("host").unpath().unwrap().pathto("protocol/1").unpath();
    let joined = v.pathto("host/protocol/1").unpath();
    assert_eq!(chained, joined);
    assert_eq!(joined.unwrap().as_str(), Some("udp"));
    let stepwise = v.path().at("host").at("protocol").at_index(1).unpath();
    assert_eq!(stepwise, joined);
}

#[test]
fn end_to_end_example() {
    let text = "[host]\nip = \"127.0.1.1\"\nport = 8080\nprotocol = [\"tcp\", \"udp\", \"mmp\"]\n";
    let v: toml::Value = text.parse().unwrap();
    let v = from_toml(&v);
    assert_eq!(v.path().at("host/ip").or_str(""), "127.0.1.1");
    assert_eq!(v.path().at("host/protocol/1").or_str(""), "udp");
    assert_eq!(v.path().at("host/missing").or_str("X"), "X");
}

#[test]
fn scalar_accessors() {
    assert_eq!(Node::Str("s".to_string()).as_str(), Some("s"));
    assert_eq!(Node::Int(3).as_str(), None);
    assert_eq!(Node::Int(3).as_integer(), Some(3));
    assert_eq!(Node::Bool(true).as_integer(), None);
    assert_eq!(Node::Bool(true).as_bool(), Some(true));
    assert_eq!(Node::Int(1).as_bool(), None);
    assert_eq!(Node::Float(1.5f64.to_bits()).as_float_bits(), Some(1.5f64.to_bits()));
    assert_eq!(Node::Int(1).as_float_bits(), None);
}
