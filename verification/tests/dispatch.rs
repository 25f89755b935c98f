use serialcom::actions::{Actions, Functor, FunctorRes};

/// What the handlers of these tests do when they run.
enum Act {
    /// Writes the text to the sink.
    Reply(&'static str),
    /// Writes the text, removes the first key and enters a reply under the second.
    Swap(&'static str, &'static str, &'static str, &'static str),
    /// Asks for the same key twice, then for one key to be removed and added.
    Twice(&'static str),
}

impl Functor<Vec<u8>> for Act {
    fn execute(&self, sink: &mut Vec<u8>) -> FunctorRes<Self> {
        let mut asked = FunctorRes::new();
        match self {
            Act::Reply(text) => sink.extend_from_slice(text.as_bytes()),
            Act::Swap(text, gone, key, reply) => {
                sink.extend_from_slice(text.as_bytes());
                asked.register(key, Act::Reply(reply));
                asked.unregister(gone);
            }
            Act::Twice(key) => {
                asked.register(key, Act::Reply("first"));
                asked.register(key, Act::Reply("second"));
                asked.unregister(key);
            }
        }
        asked
    }
}

fn table() -> Actions<Vec<u8>, Act> {
    Actions::new(Vec::new())
}

#[test]
fn ping_is_answered_once_per_dispatch() {
    let mut table = table();
    table.add("PING\n", Act::Reply("PONG"));
    let table = table.apply("PING\n");
    assert_eq!(table.writer().as_slice(), b"PONG");
    let table = table.apply("PING\n");
    assert_eq!(table.writer().as_slice(), b"PONGPONG");
}

#[test]
fn an_absent_key_changes_nothing() {
    let mut table = table();
    table.add("PING\n", Act::Reply("PONG"));
    let table = table.apply("PING");
    let table = table.apply("ping\n");
    let table = table.apply("");
    assert!(table.writer().is_empty());
    assert!(table.contains("PING\n"));
    assert!(!table.contains("PING"));
}

#[test]
fn a_handler_replaces_itself() {
    let mut table = table();
    table.add("PING\n", Act::Swap("PONG", "PING\n", "PONG2", "h2"));
    let table = table.apply("PING\n");
    assert_eq!(table.writer().as_slice(), b"PONG");
    assert!(!table.contains("PING\n"));
    assert!(table.contains("PONG2"));
    let table = table.apply("PING\n");
    assert_eq!(table.writer().as_slice(), b"PONG");
    let table = table.apply("PONG2");
    assert_eq!(table.writer().as_slice(), b"PONGh2");
}

#[test]
fn removal_comes_before_addition_and_the_last_addition_stays() {
    let mut table = table();
    table.add("GO\n", Act::Twice("KEY\n"));
    table.add("KEY\n", Act::Reply("old"));
    let table = table.apply("GO\n");
    assert!(table.contains("KEY\n"));
    let table = table.apply("KEY\n");
    assert_eq!(table.writer().as_slice(), b"second");
}

#[test]
fn a_handler_run_does_not_see_its_own_removal() {
    let mut table = table();
    table.add("ONCE\n", Act::Swap("ran", "ONCE\n", "OTHER\n", "other"));
    let table = table.apply("ONCE\n");
    let table = table.apply("ONCE\n");
    assert_eq!(table.into_writer(), b"ran".to_vec());
}

#[test]
fn adding_under_a_key_overwrites() {
    let mut table = table();
    table.add("K\n", Act::Reply("one"));
    table.add("K\n", Act::Reply("two"));
    table.add_box("B\n".to_string(), Box::new(Act::Reply("boxed")));
    let table = table.apply("K\n").apply("B\n");
    assert_eq!(table.writer().as_slice(), b"twoboxed");
}

#[test]
fn a_request_is_carried_out_on_the_table() {
    let mut table = table();
    table.add("A\n", Act::Reply("a"));
    table.add("B\n", Act::Reply("b"));
    let mut asked = FunctorRes::new();
    asked.unregister("A\n");
    asked.unregister("MISSING\n");
    asked.register("C\n", Act::Reply("c"));
    asked.register("A\n", Act::Reply("again"));
    table.mutate(asked);
    assert!(table.contains("A\n"));
    assert!(table.contains("B\n"));
    assert!(table.contains("C\n"));
    let table = table.apply("A\n").apply("B\n").apply("C\n");
    assert_eq!(table.writer().as_slice(), b"againbc");
}

#[test]
fn an_empty_request_changes_nothing() {
    let mut table = table();
    table.add("A\n", Act::Reply("a"));
    table.mutate(FunctorRes::new());
    assert!(table.contains("A\n"));
    assert!(table.writer().is_empty());
}

#[test]
fn lines_are_dispatched_first_to_last() {
    let mut table = table();
    table.add("A\n", Act::Reply("a"));
    table.add("B\n", Act::Swap("b", "A\n", "C\n", "c"));
    let mut lines = vec![
        "A\n".to_string(),
        "C\n".to_string(),
        "B\n".to_string(),
        "A\n".to_string(),
        "C\n".to_string(),
    ];
    let table = table.apply_all(&mut lines);
    assert!(lines.is_empty());
    assert_eq!(table.writer().as_slice(), b"abc");
}
