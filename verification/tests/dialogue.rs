use space_qud::dialogue::{dialogue_tree, end, go, node};

#[test]
fn find_picks_the_named_node() {
    let tree = dialogue_tree(vec![
        node("start", "Hello.", vec![go("Who are you?", "who"), end("Bye.")]),
        node("who", "Nobody much.", vec![end("Right.")]),
        node("who", "A second one.", vec![]),
    ]);
    assert_eq!(tree.find("who").text, "Nobody much.");
    assert_eq!(tree.find("start").choices.len(), 2);
    assert_eq!(tree.find("start").choices[0].next, Some("who"));
    assert_eq!(tree.find("start").choices[1].next, None);
}

#[test]
fn find_falls_back_to_the_first_node() {
    let tree = dialogue_tree(vec![node("start", "Hello.", vec![]), node("later", "Again.", vec![])]);
    assert_eq!(tree.find("missing").name, "start");
    assert_eq!(tree.find("").name, "start");
}
