use cellsplit::actor::Actor;
use cellsplit::collapse::collapse;
use cellsplit::expand::expand;
use cellsplit::store::Store;

fn lines(v: &[&str]) -> Vec<String> {
    v.iter().map(|s| s.to_string()).collect()
}

fn script() -> Vec<String> {
    lines(&["x = 1;", "%% section a", "y = 2;", "if y > 1", "    z = 3;", "end"])
}

#[test]
fn example_expands_into_three_files() {
    let mut store = Store::new();
    store.put("/d/in.m", script());
    assert_eq!(expand(Actor::new(), &mut store, "/d/in.m", false), Ok(()));
    assert_eq!(
        store.read("/d/in_gen.m").unwrap(),
        lines(&["% part 0 of /d/in.m", "x = 1;", "%% section a", "in_section_a_1 %cellsplit<1>"])
    );
    assert_eq!(
        store.read("/d/in_section_a_1.m").unwrap(),
        lines(&[
            "% part 1 of /d/in.m",
            "y = 2;",
            "if y > 1",
            "    in_if_y_1_2 %cellsplit<2>",
            "end"
        ])
    );
    assert_eq!(
        store.read("/d/in_if_y_1_2.m").unwrap(),
        lines(&["% part 2 of /d/in.m", "    z = 3;"])
    );
    assert_eq!(store.len(), 4);
}

#[test]
fn example_collapses_to_the_script() {
    let mut store = Store::new();
    store.put("/d/in.m", script());
    assert_eq!(expand(Actor::new(), &mut store, "/d/in.m", false), Ok(()));
    store.put("/d/in.m", Vec::new());
    assert_eq!(collapse(Actor::new(), &mut store, "/d/in_gen.m"), Ok(()));
    assert_eq!(store.read("/d/in.m").unwrap(), script());
}
