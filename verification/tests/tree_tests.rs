use note_taker_lib::tree::{Tree, Treeable};
use rand::random;

#[derive(Default, Debug, PartialEq, Clone)]
struct TestStruct {
    id: String,
    data: String,
}
impl TestStruct {
    pub fn new(id: String) -> Self {
        TestStruct {
            id,
            data: random::<i64>().to_string(),
        }
    }
}
impl Treeable for TestStruct {
    fn get_tree_id(&self) -> String {
        self.id.clone()
    }
}

#[test]
fn it_adds_node() {
    let val1 = TestStruct::new("val1".to_string());
    let val2 = TestStruct::new("hello/val1".to_string());
    let val3 = TestStruct::new("hello/val2".to_string());
    let mut tr = Tree::<TestStruct>::default();
    tr.set_separator('/');
    tr.add_node(val1);
    tr.add_node(val2);
    tr.add_node(val3);
    println!("{:#?}", tr);
}

#[test]
fn it_gets_node() {
    let val1 = TestStruct::new("val1".to_string());
    let val2 = TestStruct::new("hello/val1".to_string());
    let val3 = TestStruct::new("hello/val2".to_string());
    let mut tr = Tree::<TestStruct>::default();
    tr.set_separator('/');
    tr.add_node(val1);
    tr.add_node(val2);
    tr.add_node(val3);
    let node = tr.get_node("hello".to_string());
    assert_eq!(node.unwrap().children.len(), 2);
}

#[test]
fn it_gets_node_mut() {
    let val1 = TestStruct::new("val1".to_string());
    let val2 = TestStruct::new("hello/val1".to_string());
    let val3 = TestStruct::new("hello/val2".to_string());
    let mut tr = Tree::<TestStruct>::default();
    tr.set_separator('/');
    tr.add_node(val1);
    tr.add_node(val2);
    tr.add_node(val3);
    let node = tr.get_node_mutable("hello".to_string());
    println!("{:#?}", node);
    assert_eq!(node.unwrap().children.len(), 2);
}

#[test]
fn it_gets_parent_node() {
    let val1 = TestStruct::new("val1".to_string());
    let val2 = TestStruct::new("hello/val1".to_string());
    let val3 = TestStruct::new("hello/val2".to_string());
    let val4 = TestStruct::new("hello/val3".to_string());
    let mut tr = Tree::<TestStruct>::default();
    tr.set_separator('/');
    tr.add_node(val1);
    tr.add_node(val2);
    tr.add_node(val3);
    tr.add_node(val4);
    let node = tr.get_parent_node("hello/val1".to_string());
    println!("{:#?}", node);
    assert_eq!(node.unwrap().children.len(), 3);
}

#[test]
fn it_gets_parent_node_mutable() {
    let val1 = TestStruct::new("val1".to_string());
    let val2 = TestStruct::new("hello/val1".to_string());
    let val3 = TestStruct::new("hello/val2".to_string());
    let val4 = TestStruct::new("hello/val3".to_string());
    let mut tr = Tree::<TestStruct>::default();
    tr.set_separator('/');
    tr.add_node(val1);
    tr.add_node(val2);
    tr.add_node(val3);
    tr.add_node(val4);
    let node = tr.get_parent_node_mutable("hello/val1".to_string());
    println!("{:#?}", node);
    assert_eq!(node.unwrap().children.len(), 3);
}

#[test]
fn it_replaces_node_when_adding_same_path() {
    let val1 = TestStruct::new("val1".to_string());
    let val2 = TestStruct::new("hello/val1".to_string());
    let val2_clone = val2.clone();
    let val3 = TestStruct::new("hello/val1".to_string());
    let val3_clone = val3.clone();
    let mut tr = Tree::<TestStruct>::default();
    tr.set_separator('/');
    tr.add_node(val1);
    tr.add_node(val2);
    let node = tr.get_at_node("hello/val1".to_string());
    assert_eq!(*node.unwrap(), val2_clone);

    tr.add_node(val3);

    let node = tr.get_at_node("hello/val1".to_string());
    println!("{:#?}", node);
    assert_eq!(node.unwrap().clone(), val3_clone);
}

#[test]
fn it_builds_display_tree() {
    let val1 = TestStruct::new("val1".to_string());
    let val2 = TestStruct::new("hello/val1".to_string());
    let val3 = TestStruct::new("hello/val2/vala".to_string());
    let val3 = TestStruct::new("hello/val2/valb".to_string());
    let mut tr = Tree::<TestStruct>::default();
    tr.set_separator('/');
    tr.add_node(val1);
    tr.add_node(val2);
    tr.add_node(val3);
    let disp_tree = tr.build_disp_tree();
    println!("{:?}", disp_tree);
}
