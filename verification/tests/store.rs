use cellsplit::actor::Actor;
use cellsplit::error::{Error, Fault};
use cellsplit::store::{copy_lines, Sink, Store};

fn lines(v: &[&str]) -> Vec<String> {
    v.iter().map(|s| s.to_string()).collect()
}

#[test]
fn sink_keeps_lines_and_the_open_line() {
    let mut s = Sink::new();
    assert_eq!(s.read(), Vec::<String>::new());
    s.write("ab");
    assert_eq!(s.read(), lines(&["ab"]));
    s.write("cd");
    s.writeln("ef");
    assert_eq!(s.lines, lines(&["abcdef"]));
    assert_eq!(s.partial, "");
    s.writeln("");
    s.write("x");
    assert_eq!(s.read(), lines(&["abcdef", "", "x"]));
    let t = Sink::from_lines(lines(&["1", "2"]));
    assert_eq!(t.read(), lines(&["1", "2"]));
    assert_eq!(copy_lines(&t.lines), lines(&["1", "2"]));
}

#[test]
fn store_holds_one_file_per_name() {
    let mut st = Store::new();
    assert_eq!(st.len(), 0);
    st.put("a", lines(&["1"]));
    st.put("b", lines(&["2"]));
    st.put("a", lines(&["3"]));
    assert_eq!(st.len(), 2);
    assert_eq!(st.names(), lines(&["a", "b"]));
    assert_eq!(st.read("a"), Ok(lines(&["3"])));
    assert_eq!(st.read("c"), Err(Fault::Missing));
    assert!(st.contains("b"));
    assert!(!st.contains("c"));
    assert_eq!(st.find("b"), Some(1));
    assert_eq!(st.find("c"), None);
    assert_eq!(st.sink(0).lines, lines(&["3"]));
}

#[test]
fn store_creates_and_removes() {
    let mut st = Store::new();
    st.put("a", lines(&["1"]));
    assert_eq!(st.create("a", false), Err(Fault::Exists));
    assert_eq!(st.read("a"), Ok(lines(&["1"])));
    assert_eq!(st.create("a", true), Ok(0));
    assert_eq!(st.read("a"), Ok(Vec::new()));
    assert_eq!(st.create("b", false), Ok(1));
    assert_eq!(st.remove("a"), Ok(()));
    assert_eq!(st.remove("a"), Err(Fault::Missing));
    assert_eq!(st.names(), lines(&["b"]));
    st.set_sink(0, Sink::from_lines(lines(&["z"])));
    assert_eq!(st.read("b"), Ok(lines(&["z"])));
}

#[test]
fn actor_names_action_and_target() {
    let actor = Actor::new();
    assert_eq!(actor.perform(Ok::<u8, Fault>(3), "open", "x"), Ok(3));
    assert_eq!(
        actor.perform(Err::<u8, Fault>(Fault::Missing), "open", "x"),
        Err(Error::IoFailed { action: "open", target: "x".to_string() })
    );
    assert_eq!(
        actor.perform(Err::<(), &str>("any"), "canonicalize", "/p"),
        Err(Error::IoFailed { action: "canonicalize", target: "/p".to_string() })
    );
}

#[test]
fn actor_opens_creates_and_deletes() {
    let actor = Actor::new();
    let mut st = Store::new();
    st.put("a", lines(&["1"]));
    assert_eq!(actor.open(&st, "a"), Ok(lines(&["1"])));
    assert_eq!(
        actor.open(&st, "b"),
        Err(Error::IoFailed { action: "open", target: "b".to_string() })
    );
    assert_eq!(
        actor.open_options(&mut st, false, "a"),
        Err(Error::IoFailed { action: "open", target: "a".to_string() })
    );
    assert_eq!(actor.open_options(&mut st, true, "a"), Ok(0));
    assert_eq!(actor.open_options(&mut st, false, "b"), Ok(1));
    st.put("a", lines(&["1"]));
    assert_eq!(actor.create(&mut st, "a"), Ok(0));
    assert_eq!(st.read("a"), Ok(Vec::new()));
    assert_eq!(actor.delete(&mut st, "a"), Ok(()));
    assert_eq!(
        actor.delete(&mut st, "a"),
        Err(Error::IoFailed { action: "delete", target: "a".to_string() })
    );
}

#[test]
fn actor_writes_to_a_sink() {
    let actor = Actor::new();
    let mut s = Sink::new();
    assert_eq!(actor.write(&mut s, "  ", "f"), Ok(()));
    assert_eq!(actor.writeln(&mut s, "x", "f"), Ok(()));
    assert_eq!(actor.writeln(&mut s, "y", "f"), Ok(()));
    assert_eq!(s.read(), lines(&["  x", "y"]));
    let mut st = Store::new();
    st.put("f", Vec::new());
    assert_eq!(st.write_at(&actor, 0, "a", false), Ok(()));
    assert_eq!(st.write_at(&actor, 0, "b", true), Ok(()));
    assert_eq!(st.read("f"), Ok(lines(&["ab"])));
}

#[test]
fn errors_describe_themselves() {
    let e = Error::IoFailed { action: "open", target: "/d/x.m".to_string() };
    assert_eq!(e.message(), "failed to open \"/d/x.m\"");
    assert_eq!(Error::InvalidPath.message(), "no filename");
    assert_eq!(Error::UnsupportedConstruct.message(), "switch is unimplemented");
}
