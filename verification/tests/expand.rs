use cellsplit::actor::Actor;
use cellsplit::collapse::{child_path, collapse, collapse_into, delete_from};
use cellsplit::error::Error;
use cellsplit::expand::{
    classify, expand, feed, start_cell, try_create, write_cell, Context, LineKind,
};
use cellsplit::layout::{script_path, split_path};
use cellsplit::store::{Sink, Store};

fn lines(v: &[&str]) -> Vec<String> {
    v.iter().map(|s| s.to_string()).collect()
}

fn store_with(path: &str, script: &[&str]) -> Store {
    let mut store = Store::new();
    store.put(path, lines(script));
    store
}

fn io(action: &'static str, target: &str) -> Error {
    Error::IoFailed { action, target: target.to_string() }
}

fn context(path: &str, overwrite: bool) -> Context {
    Context { parts: split_path(path).unwrap(), origin: path.to_string(), overwrite }
}

#[test]
fn lines_are_classified_by_their_beginning() {
    assert_eq!(classify("%% x"), LineKind::CellBreak);
    assert_eq!(classify("  %%"), LineKind::CellBreak);
    assert_eq!(classify("% x"), LineKind::Plain);
    assert_eq!(classify("end"), LineKind::Terminator);
    assert_eq!(classify("\t end"), LineKind::Terminator);
    assert_eq!(classify("end "), LineKind::Plain);
    assert_eq!(classify("endfunction"), LineKind::Plain);
    assert_eq!(classify("for i=1:3"), LineKind::Opener);
    assert_eq!(classify("format long"), LineKind::Opener);
    assert_eq!(classify("while true"), LineKind::Opener);
    assert_eq!(classify("parfor i"), LineKind::Opener);
    assert_eq!(classify("if x"), LineKind::Opener);
    assert_eq!(classify("try"), LineKind::Opener);
    assert_eq!(classify("else"), LineKind::Reentry);
    assert_eq!(classify("  elseif x"), LineKind::Reentry);
    assert_eq!(classify("catch e"), LineKind::Reentry);
    assert_eq!(classify("switch x"), LineKind::Unsupported);
    assert_eq!(classify("x = 1"), LineKind::Plain);
    assert_eq!(classify(""), LineKind::Plain);
    assert_eq!(classify("   "), LineKind::Plain);
}

#[test]
fn branches_get_one_fragment_each() {
    let script = ["if a", "  x", "else", "  y", "end", "z"];
    let mut store = store_with("/d/s.m", &script);
    assert_eq!(expand(Actor::new(), &mut store, "/d/s.m", false), Ok(()));
    assert_eq!(
        store.read("/d/s_gen.m").unwrap(),
        lines(&[
            "% part 0 of /d/s.m",
            "if a",
            "    s_if_a_1 %cellsplit<1>",
            "else",
            "    s_else_2 %cellsplit<2>",
            "end",
            "z"
        ])
    );
    assert_eq!(store.read("/d/s_if_a_1.m").unwrap(), lines(&["% part 1 of /d/s.m", "  x"]));
    assert_eq!(store.read("/d/s_else_2.m").unwrap(), lines(&["% part 2 of /d/s.m", "  y"]));
    assert_eq!(store.len(), 4);
    assert_eq!(collapse(Actor::new(), &mut store, "/d/s_gen.m"), Ok(()));
    assert_eq!(store.read("/d/s.m").unwrap(), lines(&script));
}

#[test]
fn cell_break_inside_a_block_keeps_the_depth() {
    let script = ["for i", "  %% inner", "  w", "end"];
    let mut store = store_with("/d/s.m", &script);
    assert_eq!(expand(Actor::new(), &mut store, "/d/s.m", false), Ok(()));
    assert_eq!(
        store.read("/d/s_gen.m").unwrap(),
        lines(&[
            "% part 0 of /d/s.m",
            "for i",
            "    s_for_i_1 %cellsplit<1>",
            "  %% inner",
            "  s_inner_2 %cellsplit<2>",
            "end"
        ])
    );
    assert_eq!(store.read("/d/s_for_i_1.m").unwrap(), lines(&["% part 1 of /d/s.m"]));
    assert_eq!(store.read("/d/s_inner_2.m").unwrap(), lines(&["% part 2 of /d/s.m", "  w"]));
    assert_eq!(collapse(Actor::new(), &mut store, "/d/s_gen.m"), Ok(()));
    assert_eq!(store.read("/d/s.m").unwrap(), lines(&script));
}

#[test]
fn fragments_are_as_many_as_opening_lines() {
    let script = ["%% a", "if x", "while y", "end", "elseif z", "end", "%% b", "try", "catch", "end"];
    let mut store = store_with("/d/s.m", &script);
    assert_eq!(expand(Actor::new(), &mut store, "/d/s.m", false), Ok(()));
    // the script, the root, and one fragment for each of the 7 opening lines
    assert_eq!(store.len(), 2 + 7);
    assert!(store.contains("/d/s_catch_7.m"));
    assert_eq!(collapse(Actor::new(), &mut store, "/d/s_gen.m"), Ok(()));
    assert_eq!(store.read("/d/s.m").unwrap(), lines(&script));
}

#[test]
fn end_without_block_is_accepted() {
    let script = ["end", "a", "end", "if b", "c"];
    let mut store = store_with("/d/s.m", &script);
    assert_eq!(expand(Actor::new(), &mut store, "/d/s.m", false), Ok(()));
    assert_eq!(
        store.read("/d/s_gen.m").unwrap(),
        lines(&["% part 0 of /d/s.m", "end", "a", "end", "if b", "    s_if_b_1 %cellsplit<1>"])
    );
    assert_eq!(store.read("/d/s_if_b_1.m").unwrap(), lines(&["% part 1 of /d/s.m", "c"]));
    assert_eq!(collapse(Actor::new(), &mut store, "/d/s_gen.m"), Ok(()));
    assert_eq!(store.read("/d/s.m").unwrap(), lines(&script));
}

#[test]
fn switch_is_refused_and_not_written() {
    let mut store = store_with("/d/s.m", &["a", "  switch x", "b"]);
    assert_eq!(
        expand(Actor::new(), &mut store, "/d/s.m", false),
        Err(Error::UnsupportedConstruct)
    );
    assert_eq!(store.read("/d/s_gen.m").unwrap(), lines(&["% part 0 of /d/s.m", "a"]));
    assert_eq!(store.len(), 2);
}

#[test]
fn empty_script_gives_a_root_with_its_header() {
    let mut store = store_with("/d/s.m", &[]);
    assert_eq!(expand(Actor::new(), &mut store, "/d/s.m", false), Ok(()));
    assert_eq!(store.read("/d/s_gen.m").unwrap(), lines(&["% part 0 of /d/s.m"]));
    assert_eq!(collapse(Actor::new(), &mut store, "/d/s_gen.m"), Ok(()));
    assert_eq!(store.read("/d/s.m").unwrap(), Vec::<String>::new());
}

#[test]
fn script_without_extension() {
    let mut store = store_with("run", &["%% one", "a"]);
    assert_eq!(expand(Actor::new(), &mut store, "run", true), Ok(()));
    assert_eq!(store.read("run_gen.").unwrap(), lines(&["% part 0 of run", "%% one",
        "run_one_1 %cellsplit<1>"]));
    assert_eq!(store.read("run_one_1.").unwrap(), lines(&["% part 1 of run", "a"]));
    assert_eq!(collapse(Actor::new(), &mut store, "run_gen."), Ok(()));
    assert_eq!(store.read("run").unwrap(), lines(&["%% one", "a"]));
}

#[test]
fn expand_fails_on_bad_paths_and_missing_script() {
    let mut store = store_with("/d/s.m", &["a"]);
    assert_eq!(expand(Actor::new(), &mut store, "/d/", false), Err(Error::InvalidPath));
    assert_eq!(expand(Actor::new(), &mut store, "", true), Err(Error::InvalidPath));
    assert_eq!(expand(Actor::new(), &mut store, "/d/t.m", false), Err(io("open", "/d/t.m")));
    assert_eq!(store.len(), 1);
}

#[test]
fn files_in_the_way_stop_the_pass() {
    let mut store = store_with("/d/s.m", &["if a", "b"]);
    store.put("/d/s_gen.m", lines(&["old"]));
    assert_eq!(expand(Actor::new(), &mut store, "/d/s.m", false), Err(io("open", "/d/s_gen.m")));
    assert_eq!(store.read("/d/s_gen.m").unwrap(), lines(&["old"]));

    let mut store = store_with("/d/s.m", &["if a", "b"]);
    store.put("/d/s_if_a_1.m", lines(&["old"]));
    assert_eq!(
        expand(Actor::new(), &mut store, "/d/s.m", false),
        Err(io("open", "/d/s_if_a_1.m"))
    );
    assert_eq!(store.read("/d/s_if_a_1.m").unwrap(), lines(&["old"]));
    assert_eq!(
        store.read("/d/s_gen.m").unwrap(),
        lines(&["% part 0 of /d/s.m", "if a", "    "])
    );
}

#[test]
fn overwrite_leaves_the_fragments_of_the_last_run() {
    let first = ["x = 1;", "%% section a", "y = 2;", "if y > 1", "    z = 3;", "end"];
    let mut store = store_with("/d/in.m", &first);
    assert_eq!(expand(Actor::new(), &mut store, "/d/in.m", true), Ok(()));
    assert_eq!(store.len(), 4);
    let once: Vec<(String, Vec<String>)> =
        store.names().into_iter().map(|n| (n.clone(), store.read(&n).unwrap())).collect();
    assert_eq!(expand(Actor::new(), &mut store, "/d/in.m", true), Ok(()));
    let mut twice: Vec<(String, Vec<String>)> =
        store.names().into_iter().map(|n| (n.clone(), store.read(&n).unwrap())).collect();
    let mut once = once;
    once.sort();
    twice.sort();
    assert_eq!(once, twice);

    store.put("/d/in.m", lines(&["%% other", "x = 1;"]));
    assert_eq!(expand(Actor::new(), &mut store, "/d/in.m", true), Ok(()));
    let mut names = store.names();
    names.sort();
    assert_eq!(names, lines(&["/d/in.m", "/d/in_gen.m", "/d/in_other_1.m"]));
    assert_eq!(
        store.read("/d/in_gen.m").unwrap(),
        lines(&["% part 0 of /d/in.m", "%% other", "in_other_1 %cellsplit<1>"])
    );
}

#[test]
fn cells_are_opened_step_by_step() {
    let actor = Actor::new();
    let ctx = context("/d/in.m", false);
    let mut store = Store::new();
    assert_eq!(try_create(&actor, &mut store, "/d/in_gen.m", false), Ok(0));
    assert_eq!(try_create(&actor, &mut store, "/d/in_gen.m", false), Err(io("open", "/d/in_gen.m")));
    assert_eq!(try_create(&actor, &mut store, "/d/in_gen.m", true), Ok(0));

    assert_eq!(start_cell(&actor, &mut store, &ctx, 0, 5, "%% My title"), Ok(1));
    assert_eq!(store.read("/d/in_my_title_5.m").unwrap(), lines(&["% part 5 of /d/in.m"]));
    assert_eq!(store.read("/d/in_gen.m").unwrap(), lines(&["in_my_title_5 %cellsplit<5>"]));
    assert_eq!(
        start_cell(&actor, &mut store, &ctx, 0, 5, "my-title"),
        Err(io("open", "/d/in_my_title_5.m"))
    );

    let mut cells = vec![0, 1];
    assert_eq!(write_cell(&actor, &mut store, &ctx, &mut cells, 0, 6, "    ", "\tif q"), Ok(()));
    assert_eq!(cells, vec![0, 1, 2]);
    assert_eq!(
        store.read("/d/in_my_title_5.m").unwrap(),
        lines(&["% part 5 of /d/in.m", "\tif q", "\t    in_if_q_6 %cellsplit<6>"])
    );
    assert_eq!(store.read("/d/in_if_q_6.m").unwrap(), lines(&["% part 6 of /d/in.m"]));

    let mut made: u128 = 7;
    assert_eq!(feed(&actor, &mut store, &ctx, &mut cells, 0, &mut made, "w = 1"), Ok(()));
    assert_eq!(feed(&actor, &mut store, &ctx, &mut cells, 0, &mut made, "end"), Ok(()));
    assert_eq!((cells.clone(), made), (vec![0, 1], 7));
    assert_eq!(feed(&actor, &mut store, &ctx, &mut cells, 0, &mut made, "%% next"), Ok(()));
    assert_eq!((cells.clone(), made), (vec![0, 3], 8));
    assert_eq!(
        feed(&actor, &mut store, &ctx, &mut cells, 0, &mut made, "switch"),
        Err(Error::UnsupportedConstruct)
    );
    assert_eq!(store.read("/d/in_if_q_6.m").unwrap(), lines(&["% part 6 of /d/in.m", "w = 1"]));
    assert_eq!(
        store.read("/d/in_gen.m").unwrap(),
        lines(&["in_my_title_5 %cellsplit<5>", "%% next", "in_next_7 %cellsplit<7>"])
    );
}

#[test]
fn collapse_fails_where_a_fragment_is_missing() {
    let mut store = store_with("/d/in.m", &["keep"]);
    assert_eq!(collapse(Actor::new(), &mut store, "/d/in_gen.m"), Err(io("open", "/d/in_gen.m")));
    assert_eq!(store.read("/d/in.m").unwrap(), Vec::<String>::new());
    assert_eq!(collapse(Actor::new(), &mut store, "/d/"), Err(Error::InvalidPath));

    store.put("/d/in_gen.m", lines(&["header", "a", "  in_x_1 %cellsplit<1>", "b"]));
    assert_eq!(collapse(Actor::new(), &mut store, "/d/in_gen.m"), Err(io("open", "/d/in_x_1.m")));
    assert_eq!(store.read("/d/in.m").unwrap(), lines(&["a"]));
}

#[test]
fn collapse_fails_on_fragments_that_refer_to_each_other() {
    let mut store = Store::new();
    store.put("/d/in_gen.m", lines(&["header", "a", "in_gen %cellsplit<0>"]));
    assert_eq!(collapse(Actor::new(), &mut store, "/d/in_gen.m"), Err(io("open", "/d/in_gen.m")));
    assert_eq!(store.read("/d/in.m").unwrap(), lines(&["a"]));
}

#[test]
fn collapse_into_goes_as_deep_as_allowed() {
    let actor = Actor::new();
    let mut store = Store::new();
    store.put("/d/r.m", lines(&["h", "1", "a %cellsplit<1>", "4"]));
    store.put("/d/a.m", lines(&["h", "2", "\tb %cellsplit<2>"]));
    store.put("/d/b.m", lines(&["h", "3"]));
    assert_eq!(child_path("/d/r.m", "a"), "/d/a.m");
    let mut out = Sink::new();
    assert_eq!(collapse_into(&actor, &store, "/d/r.m", &mut out, 3), Ok(()));
    assert_eq!(out.read(), lines(&["1", "2", "3", "4"]));
    let mut out = Sink::new();
    assert_eq!(collapse_into(&actor, &store, "/d/r.m", &mut out, 2), Err(io("open", "/d/b.m")));
    assert_eq!(out.read(), lines(&["1", "2"]));
    let mut out = Sink::new();
    assert_eq!(collapse_into(&actor, &store, "/d/r.m", &mut out, 0), Err(io("open", "/d/r.m")));
    let mut out = Sink::new();
    assert_eq!(collapse_into(&actor, &store, "/d/none.m", &mut out, 9), Err(io("open", "/d/none.m")));
}

#[test]
fn delete_walk_takes_every_fragment_referred_to() {
    let actor = Actor::new();
    let mut store = Store::new();
    store.put("/d/r_gen.m", lines(&["r_a_1 %cellsplit<1>", "text", "r_b_2 %cellsplit<2>"]));
    store.put("/d/r_a_1.m", lines(&["h", "  r_c_3 %cellsplit<3>"]));
    store.put("/d/r_c_3.m", lines(&["h"]));
    store.put("/d/r_b_2.m", lines(&["h"]));
    store.put("/d/other.m", lines(&["h"]));
    assert_eq!(delete_from(&actor, &mut store, "/d/r_gen.m", 5), Ok(()));
    assert_eq!(store.names(), lines(&["/d/r_gen.m", "/d/other.m"]));
}

#[test]
fn delete_walk_stops_at_the_first_failure() {
    let actor = Actor::new();
    let mut store = Store::new();
    store.put("/d/r_gen.m", lines(&["r_a_1 %cellsplit<1>", "r_a_1 %cellsplit<1>", "r_b_2 %cellsplit<2>"]));
    store.put("/d/r_a_1.m", lines(&["h"]));
    store.put("/d/r_b_2.m", lines(&["h"]));
    assert_eq!(delete_from(&actor, &mut store, "/d/r_gen.m", 5), Err(io("open", "/d/r_a_1.m")));
    assert_eq!(store.names(), lines(&["/d/r_gen.m", "/d/r_b_2.m"]));
    assert_eq!(delete_from(&actor, &mut store, "/d/r_gen.m", 1), Err(io("open", "/d/r_a_1.m")));
    assert_eq!(delete_from(&actor, &mut store, "/d/none.m", 5), Err(io("open", "/d/none.m")));
}

#[test]
fn open_fragments_are_one_more_than_open_blocks() {
    let actor = Actor::new();
    let ctx = context("/d/in.m", true);
    let mut store = Store::new();
    let root = try_create(&actor, &mut store, "/d/in_gen.m", true).unwrap();
    let mut cells = vec![root];
    let mut made: u128 = 1;
    let script = [
        ("a = 1", 1),
        ("if x", 2),
        ("  for y", 3),
        ("    %% c", 3),
        ("  end", 2),
        ("else", 2),
        ("  try", 3),
        ("  catch", 3),
        ("  end", 2),
        ("end", 1),
        ("%% d", 1),
        ("b = 2", 1),
    ];
    for (line, depth) in script {
        assert_eq!(feed(&actor, &mut store, &ctx, &mut cells, root, &mut made, line), Ok(()));
        assert_eq!(cells.len(), depth);
    }
    assert_eq!(made, 8);
}

#[test]
fn stem_with_white_space_is_not_joined_again() {
    let script = ["if a", "b", "end"];
    let mut store = store_with("/d/my script.m", &script);
    assert_eq!(expand(Actor::new(), &mut store, "/d/my script.m", false), Ok(()));
    assert_eq!(store.read("/d/my script_if_a_1.m").unwrap(), lines(&["% part 1 of /d/my script.m", "b"]));
    assert_eq!(collapse(Actor::new(), &mut store, "/d/my script_gen.m"), Ok(()));
    assert_eq!(
        store.read("/d/my script.m").unwrap(),
        lines(&["if a", "    my script_if_a_1 %cellsplit<1>", "end"])
    );
}

#[test]
fn marker_in_the_script_is_followed_when_joining() {
    let script = ["a", "other %cellsplit<9>", "b"];
    let mut store = store_with("/d/s.m", &script);
    store.put("/d/other.m", lines(&["header", "from elsewhere"]));
    assert_eq!(expand(Actor::new(), &mut store, "/d/s.m", false), Ok(()));
    assert_eq!(collapse(Actor::new(), &mut store, "/d/s_gen.m"), Ok(()));
    assert_eq!(store.read("/d/s.m").unwrap(), lines(&["a", "from elsewhere", "b"]));
}

#[test]
fn overwrite_replaces_stale_files_that_no_marker_names() {
    let mut store = store_with("/d/s.m", &["if a", "b"]);
    store.put("/d/s_if_a_1.m", lines(&["stale", "stale"]));
    assert_eq!(expand(Actor::new(), &mut store, "/d/s.m", true), Ok(()));
    assert_eq!(store.read("/d/s_if_a_1.m").unwrap(), lines(&["% part 1 of /d/s.m", "b"]));
    assert_eq!(store.len(), 3);
}

#[test]
fn collapse_is_given_the_root_and_leaves_it() {
    let script = ["%% a", "x", "if y", "z", "end"];
    let mut store = store_with("/d/s.m", &script);
    assert_eq!(expand(Actor::new(), &mut store, "/d/s.m", false), Ok(()));
    let root = store.read("/d/s_gen.m").unwrap();
    let cell = store.read("/d/s_a_1.m").unwrap();
    store.put("/d/s.m", lines(&["changed"]));
    assert_eq!(collapse(Actor::new(), &mut store, "/d/s_gen.m"), Ok(()));
    assert_eq!(store.read("/d/s.m").unwrap(), lines(&script));
    assert_eq!(store.read("/d/s_gen.m").unwrap(), root);
    assert_eq!(store.read("/d/s_a_1.m").unwrap(), cell);
    assert_eq!(store.len(), 4);
}

#[test]
fn collapse_refuses_what_is_no_root() {
    let mut store = store_with("/d/s.m", &["a"]);
    assert_eq!(expand(Actor::new(), &mut store, "/d/s.m", false), Ok(()));
    assert_eq!(collapse(Actor::new(), &mut store, "/d/s.m"), Err(Error::InvalidPath));
    assert_eq!(collapse(Actor::new(), &mut store, "/d/_gen.m"), Err(Error::InvalidPath));
    assert_eq!(collapse(Actor::new(), &mut store, ""), Err(Error::InvalidPath));
    assert_eq!(store.read("/d/s.m").unwrap(), lines(&["a"]));
    assert_eq!(store.len(), 2);
}

#[test]
fn script_of_a_root() {
    assert_eq!(script_path("/d/s_gen.m"), Ok("/d/s.m".to_string()));
    assert_eq!(script_path("a.b_gen.c"), Ok("a.b.c".to_string()));
    assert_eq!(script_path("/d/run_gen."), Ok("/d/run".to_string()));
    assert_eq!(script_path("/d/run_gen"), Ok("/d/run".to_string()));
    assert_eq!(script_path("/d/s_gen_gen.m"), Ok("/d/s_gen.m".to_string()));
    assert_eq!(script_path("/d/_gen.m"), Err(Error::InvalidPath));
    assert_eq!(script_path("/d/s_gem.m"), Err(Error::InvalidPath));
    assert_eq!(script_path("/d/s.m"), Err(Error::InvalidPath));
}

#[test]
fn fresh_directory_takes_one_file_for_each_opening_line() {
    let script = ["%% a", "if x", "b", "else", "c", "end", "%% a", "for i", "end"];
    let mut store = store_with("/d/s.m", &script);
    assert_eq!(expand(Actor::new(), &mut store, "/d/s.m", false), Ok(()));
    let mut names = store.names();
    names.sort();
    assert_eq!(
        names,
        lines(&[
            "/d/s.m",
            "/d/s_a_1.m",
            "/d/s_a_4.m",
            "/d/s_else_3.m",
            "/d/s_for_i_5.m",
            "/d/s_gen.m",
            "/d/s_if_x_2.m"
        ])
    );
}

#[test]
fn second_run_writes_what_a_fresh_run_writes() {
    let first = ["%% a", "if x", "b", "end"];
    let second = ["y", "%% c", "while z", "w", "end"];
    let mut store = store_with("/d/s.m", &first);
    store.put("/d/s_notes.m", lines(&["mine"]));
    assert_eq!(expand(Actor::new(), &mut store, "/d/s.m", true), Ok(()));
    store.put("/d/s.m", lines(&second));
    assert_eq!(expand(Actor::new(), &mut store, "/d/s.m", true), Ok(()));
    let mut fresh = store_with("/d/s.m", &second);
    assert_eq!(expand(Actor::new(), &mut fresh, "/d/s.m", false), Ok(()));
    for name in fresh.names() {
        assert_eq!(store.read(&name), fresh.read(&name));
    }
    assert_eq!(store.len(), fresh.len() + 1);
    assert_eq!(store.read("/d/s_notes.m").unwrap(), lines(&["mine"]));
    assert!(!store.contains("/d/s_a_1.m"));
    assert!(!store.contains("/d/s_if_x_2.m"));
}
