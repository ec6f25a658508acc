#![allow(non_snake_case)]

use data_lake::path::Path;
use data_lake::path::PathElement::{Name, Root, Wildcard};
use data_lake::path_tree::{PathTree, ROOT};

#[test]
fn PathTree_test_add_payload_to_root()
{
    let mut tree = PathTree::<&str>::new();
    tree.add_payload(&Path::from_elements(&[Root]), "data");
    assert!(*tree.element(ROOT) == Root);
    assert!(tree.childs(ROOT).len() == 0);
    assert!(tree.payloads(ROOT).len() == 1);
    assert!(tree.payloads(ROOT)[0] == "data");
}

#[test]
fn PathTree_test_add_payload_to_2root()
{
    let mut tree = PathTree::<&str>::new();
    tree.add_payload(&Path::from_elements(&[Root, Root]), "data");
    assert!(*tree.element(ROOT) == Root);
    assert!(tree.childs(ROOT).len() == 0);
    assert!(tree.payloads(ROOT).len() == 1);
    assert!(tree.payloads(ROOT)[0] == "data");
}

#[test]
fn PathTree_test_add_payload()
{
    let mut tree = PathTree::<&str>::new();
    tree.add_payload(&Path::from_elements(&[Root, Name("test".into())]), "data");
    assert!(*tree.element(ROOT) == Root);
    assert!(tree.childs(ROOT).len() == 1);
    assert!(*tree.element(tree.childs(ROOT)[0]) == Name("test".into()));
    assert!(tree.payloads(tree.childs(ROOT)[0]).len() == 1);
    assert!(tree.payloads(tree.childs(ROOT)[0])[0] == "data");
}

#[test]
fn PathTree_test_add_2payload_same_path()
{
    let mut tree = PathTree::<&str>::new();
    tree.add_payload(&Path::from_elements(&[Root, Name("test".into())]), "data");
    tree.add_payload(&Path::from_elements(&[Root, Name("test".into())]), "data2");
    assert!(*tree.element(ROOT) == Root);
    assert!(tree.childs(ROOT).len() == 1);
    assert!(*tree.element(tree.childs(ROOT)[0]) == Name("test".into()));
    assert!(tree.payloads(tree.childs(ROOT)[0]).len() == 2);
    assert!(tree.payloads(tree.childs(ROOT)[0])[0] == "data");
    assert!(tree.payloads(tree.childs(ROOT)[0])[1] == "data2");
}

#[test]
fn PathTree_test_add_2payload_different_path()
{
    let mut tree = PathTree::<&str>::new();
    tree.add_payload(&Path::from_elements(&[Root, Name("test".into())]), "data");
    tree.add_payload(&Path::from_elements(&[Root, Name("test2".into())]), "data2");
    assert!(*tree.element(ROOT) == Root);
    assert!(tree.childs(ROOT).len() == 2);
    assert!(*tree.element(tree.childs(ROOT)[0]) == Name("test".into()));
    assert!(tree.payloads(tree.childs(ROOT)[0]).len() == 1);
    assert!(tree.payloads(tree.childs(ROOT)[0])[0] == "data");
    assert!(*tree.element(tree.childs(ROOT)[1]) == Name("test2".into()));
    assert!(tree.payloads(tree.childs(ROOT)[1]).len() == 1);
    assert!(tree.payloads(tree.childs(ROOT)[1])[0] == "data2");
}

#[test]
fn PathTree_test_add_2payload_different_deep_path()
{
    let mut tree = PathTree::<&str>::new();
    tree.add_payload(&Path::from_elements(&[Root, Name("l1".into()), Name("l12".into())]), "data1");
    tree.add_payload(&Path::from_elements(&[Root, Name("l2".into()), Name("l22".into())]), "data2");
    assert!(*tree.element(ROOT) == Root);
    assert!(tree.childs(ROOT).len() == 2);
    assert!(*tree.element(tree.childs(ROOT)[0]) == Name("l1".into()));
    assert!(tree.payloads(tree.childs(ROOT)[0]).len() == 0);
    assert!(*tree.element(tree.childs(ROOT)[1]) == Name("l2".into()));
    assert!(tree.payloads(tree.childs(ROOT)[1]).len() == 0);

    assert!(tree.childs(tree.childs(ROOT)[0]).len() == 1);
    assert!(*tree.element(tree.childs(tree.childs(ROOT)[0])[0]) == Name("l12".into()));
    assert!(tree.payloads(tree.childs(tree.childs(ROOT)[0])[0]).len() == 1);
    assert!(tree.payloads(tree.childs(tree.childs(ROOT)[0])[0])[0] == "data1");

    assert!(tree.childs(tree.childs(ROOT)[1]).len() == 1);
    assert!(*tree.element(tree.childs(tree.childs(ROOT)[1])[0]) == Name("l22".into()));
    assert!(tree.payloads(tree.childs(tree.childs(ROOT)[1])[0]).len() == 1);
    assert!(tree.payloads(tree.childs(tree.childs(ROOT)[1])[0])[0] == "data2");

}


#[test]
fn PathTree_test_get_payloads()
{
    let mut tree = PathTree::<&str>::new();
    let path = [Root, Name("test".into())];
    tree.add_payload(&Path::from_elements(&path), "data");
    assert!(tree.get_payloads(&Path::from_elements(&[Root, Name("test".into())])).len() == 1);
    assert!(tree.get_payloads(&Path::from_elements(&[Root, Name("test".into())])).contains(&&"data"));
    assert!(tree.get_payloads(&Path::from_elements(&[Root, Wildcard((1,0))])).len() == 1);
    assert!(tree.get_payloads(&Path::from_elements(&[Root, Wildcard((1,0))])).contains(&&"data"));
}

#[test]
fn PathTree_test_get_payloads_relative_path()
{
    let mut tree = PathTree::<&str>::new();
    let path = [Root, Name("l1".into()), Name("l2".into())];
    tree.add_payload(&Path::from_elements(&path), "data");
    assert!(tree.childs(ROOT).len() == 1);
    assert!(tree.get_payloads_from(tree.childs(ROOT)[0], &Path::from_elements(&[Wildcard((1,0)), Wildcard((1,0))])).len() == 1);
    assert!(tree.get_payloads_from(tree.childs(ROOT)[0], &Path::from_elements(&[Wildcard((1,0)), Wildcard((1,0))])).contains(&&"data"));
    assert!(tree.childs(tree.childs(ROOT)[0]).len() == 1);
    assert!(tree.get_payloads_from(tree.childs(tree.childs(ROOT)[0])[0], &Path::from_elements(&[Wildcard((1,0))])).len() == 1);
    assert!(tree.get_payloads_from(tree.childs(tree.childs(ROOT)[0])[0], &Path::from_elements(&[Wildcard((1,0))])).contains(&&"data"));
    assert!(tree.get_payloads_from(tree.childs(ROOT)[0], &Path::from_elements(&path)).len() == 0);
}

#[test]
fn PathTree_test_get_2payloads_same_path()
{
    let mut tree = PathTree::<&str>::new();
    let path = [Root, Name("test".into())];
    tree.add_payload(&Path::from_elements(&path), "data");
    tree.add_payload(&Path::from_elements(&path), "data2");
    assert!(tree.get_payloads(&Path::from_elements(&[Root, Wildcard((1,0))])).len() == 2);
    assert!(tree.get_payloads(&Path::from_elements(&[Root, Wildcard((1,0))])).contains(&&"data"));
    assert!(tree.get_payloads(&Path::from_elements(&[Root, Wildcard((1,0))])).len() == 2);
    assert!(tree.get_payloads(&Path::from_elements(&[Root, Wildcard((1,0))])).contains(&&"data2"));
    assert!(tree.get_payloads(&Path::from_elements(&path)).len() == 2);
    assert!(tree.get_payloads(&Path::from_elements(&path)).contains(&&"data"));
    assert!(tree.get_payloads(&Path::from_elements(&path)).contains(&&"data2"));
}

#[test]
fn PathTree_test_get_2payload_different_path()
{
    let mut tree = PathTree::<&str>::new();
    let path1 = [Root, Name("test".into())];
    let path2 = [Root, Name("test2".into())];
    tree.add_payload(&Path::from_elements(&path1), "data");
    tree.add_payload(&Path::from_elements(&path2), "data2");
    assert!(tree.get_payloads(&Path::from_elements(&[Root])).len() == 0);
    assert!(tree.get_payloads(&Path::from_elements(&[Root, Wildcard((1,0))])).len() == 2);
    assert!(tree.get_payloads(&Path::from_elements(&[Root, Wildcard((1,0))])).contains(&&"data"));
    assert!(tree.get_payloads(&Path::from_elements(&[Root, Wildcard((1,0))])).contains(&&"data2"));
    assert!(tree.get_payloads(&Path::from_elements(&path1)).len() == 1);
    assert!(tree.get_payloads(&Path::from_elements(&path2)).len() == 1);
    assert!(tree.get_payloads(&Path::from_elements(&path1)).contains(&&"data"));
    assert!(tree.get_payloads(&Path::from_elements(&path2)).contains(&&"data2"));
}

#[test]
fn PathTree_test_get_2path_different_deep_path()
{
    let mut tree = PathTree::<&str>::new();
    let path1 = [Root, Name("l1".into()), Name("l12".into())];
    let path2 = [Root, Name("l1".into()), Name("l22".into())];
    tree.add_payload(&Path::from_elements(&path1), "data1");
    tree.add_payload(&Path::from_elements(&path2), "data2");
    assert!(tree.get_payloads(&Path::from_elements(&[Root])).len() == 0);
    assert!(tree.get_payloads(&Path::from_elements(&[Root, Wildcard((1,0))])).len() == 0);
    assert!(tree.get_payloads(&Path::from_elements(&[Root, Wildcard((1,0)), Name("l12".into())])).len() == 1);
    assert!(tree.get_payloads(&Path::from_elements(&[Root, Wildcard((1,0)), Name("l12".into())])).contains(&&"data1"));
    assert!(tree.get_payloads(&Path::from_elements(&[Root, Wildcard((1,0)), Wildcard((1,0))])).len() == 2);
    assert!(tree.get_payloads(&Path::from_elements(&[Root, Wildcard((1,0)), Wildcard((1,0))])).contains(&&"data1"));
    assert!(tree.get_payloads(&Path::from_elements(&[Root, Wildcard((1,0)), Wildcard((1,0))])).contains(&&"data2"));

    assert!(tree.get_payloads(&Path::from_elements(&path1)).len() == 1);
    assert!(tree.get_payloads(&Path::from_elements(&path2)).len() == 1);
    assert!(tree.get_payloads(&Path::from_elements(&path1)).contains(&&"data1"));
    assert!(tree.get_payloads(&Path::from_elements(&path2)).contains(&&"data2"));
}

#[test]
fn PathTree_test_wildcard_at_end_of_path()
{
    // roota        sroot
    //    l1        s1
    //      l11     s11
    //      l12     s12
    //    l2        s2
    //      l21     s21
    //      l22     s22
    let mut tree = PathTree::<&str>::new();
    tree.add_payload(&Path::from_elements(&[Root]), "sroot");
    tree.add_payload(&Path::from_elements(&[Root, Name("l1".into())]), "s1");
    tree.add_payload(&Path::from_elements(&[Root, Name("l1".into()), Name("l11".into())]), "s11");
    tree.add_payload(&Path::from_elements(&[Root, Name("l1".into()), Name("l12".into())]), "s12");
    tree.add_payload(&Path::from_elements(&[Root, Name("l2".into())]), "s2");
    tree.add_payload(&Path::from_elements(&[Root, Name("l2".into()), Name("l21".into())]), "s21");
    tree.add_payload(&Path::from_elements(&[Root, Name("l2".into()), Name("l22".into())]), "s22");

    assert!(tree.get_payloads(&Path::from_elements(&[Root])).len() == 1);
    assert!(tree.get_payloads(&Path::from_elements(&[Root])).contains(&&"sroot"));

    assert!(tree.get_payloads(&Path::from_elements(&[Root, Name("l1".into())])).len() == 1);
    assert!(tree.get_payloads(&Path::from_elements(&[Root, Name("l1".into())])).contains(&&"s1"));

    assert!(tree.get_payloads(&Path::from_elements(&[Root, Name("l1".into()), Name("l11".into())])).len() == 1);
    assert!(tree.get_payloads(&Path::from_elements(&[Root, Name("l1".into()), Name("l11".into())])).contains(&&"s11"));

    assert!(tree.get_payloads(&Path::from_elements(&[Root, Name("l1".into()), Name("l12".into())])).len() == 1);
    assert!(tree.get_payloads(&Path::from_elements(&[Root, Name("l1".into()), Name("l12".into())])).contains(&&"s12"));

    assert!(tree.get_payloads(&Path::from_elements(&[Root, Name("l2".into())])).len() == 1);
    assert!(tree.get_payloads(&Path::from_elements(&[Root, Name("l2".into())])).contains(&&"s2"));

    assert!(tree.get_payloads(&Path::from_elements(&[Root, Name("l2".into()), Name("l21".into())])).len() == 1);
    assert!(tree.get_payloads(&Path::from_elements(&[Root, Name("l2".into()), Name("l21".into())])).contains(&&"s21"));

    assert!(tree.get_payloads(&Path::from_elements(&[Root, Name("l2".into()), Name("l22".into())])).len() == 1);
    assert!(tree.get_payloads(&Path::from_elements(&[Root, Name("l2".into()), Name("l22".into())])).contains(&&"s22"));

    assert!(tree.get_payloads(&Path::from_elements(&[Root, Name("l2".into()), Wildcard((1,0))])).len() == 2);
    assert!(tree.get_payloads(&Path::from_elements(&[Root, Name("l2".into()), Wildcard((1,0))])).contains(&&"s21"));
    assert!(tree.get_payloads(&Path::from_elements(&[Root, Name("l2".into()), Wildcard((1,0))])).contains(&&"s22"));

    assert!(tree.get_payloads(&Path::from_elements(&[Root, Wildcard((1,0))])).len() == 2);
    assert!(tree.get_payloads(&Path::from_elements(&[Root, Wildcard((1,0))])).contains(&&"s1"));
    assert!(tree.get_payloads(&Path::from_elements(&[Root, Wildcard((1,0))])).contains(&&"s2"));

    let results = tree.get_payloads(&Path::from_elements(&[Root, Wildcard((0,1))]));
    println!("res={:#?}", results);
    assert!(results.len() == 3);
    assert!(results.contains(&&"s1"));
    assert!(results.contains(&&"s2"));
    assert!(results.contains(&&"sroot"));

    let results = tree.get_payloads(&Path::from_elements(&[Root, Wildcard((0,2))]));
    println!("res={:#?}", results);
    assert!(results.len() == 7);
    assert!(results.contains(&&"s1"));
    assert!(results.contains(&&"s11"));
    assert!(results.contains(&&"s12"));
    assert!(results.contains(&&"s2"));
    assert!(results.contains(&&"s21"));
    assert!(results.contains(&&"s22"));
    assert!(results.contains(&&"sroot"));

    let results = tree.get_payloads(&Path::from_elements(&[Root, Wildcard((1,1))]));
    println!("res={:#?}", results);
    assert!(results.len() == 6);
    assert!(results.contains(&&"s1"));
    assert!(results.contains(&&"s11"));
    assert!(results.contains(&&"s12"));
    assert!(results.contains(&&"s2"));
    assert!(results.contains(&&"s21"));
    assert!(results.contains(&&"s22"));

    let results = tree.get_payloads(&Path::from_elements(&[Root, Wildcard((2,0))]));
    println!("res={:#?}", results);
    assert!(results.len() == 4);
    assert!(results.contains(&&"s11"));
    assert!(results.contains(&&"s12"));
    assert!(results.contains(&&"s21"));
    assert!(results.contains(&&"s22"));

    let results = tree.get_payloads(&Path::from_elements(&[Root, Wildcard((3,0))]));
    println!("res={:#?}", results);
    assert!(results.len() == 0);
}

#[test]
fn PathTree_test_wildcard_in_middle()
{
    // roota        sroot
    //    l1        s1
    //      same    s1same
    //      l12     s12
    //    l2        s2
    //      l21     s21
    //      l22     s22
    //      same    s2same
    //    same      srootsame
    let mut tree = PathTree::<&str>::new();
    tree.add_payload(&Path::from_elements(&[Root]), "sroot");
    tree.add_payload(&Path::from_elements(&[Root, Name("same".into())]), "srootsame");
    tree.add_payload(&Path::from_elements(&[Root, Name("l1".into())]), "s1");
    tree.add_payload(&Path::from_elements(&[Root, Name("l1".into()), Name("same".into())]), "s1same");
    tree.add_payload(&Path::from_elements(&[Root, Name("l1".into()), Name("l12".into())]), "s12");
    tree.add_payload(&Path::from_elements(&[Root, Name("l2".into())]), "s2");
    tree.add_payload(&Path::from_elements(&[Root, Name("l2".into()), Name("l21".into())]), "s21");
    tree.add_payload(&Path::from_elements(&[Root, Name("l2".into()), Name("l22".into())]), "s22");
    tree.add_payload(&Path::from_elements(&[Root, Name("l2".into()), Name("same".into())]), "s2same");

    let results = tree.get_payloads(&Path::from_elements(&[Root, Wildcard((1,0)), Name("same".into())]));
    println!("res={:#?}", results);
    assert!(results.len() == 2);
    assert!(results.contains(&&"s1same"));
    assert!(results.contains(&&"s2same"));

    let results = tree.get_payloads(&Path::from_elements(&[Root, Wildcard((0,1)), Name("same".into())]));
    println!("res={:#?}", results);
    assert!(results.len() == 3);
    assert!(results.contains(&&"s1same"));
    assert!(results.contains(&&"s2same"));
    assert!(results.contains(&&"srootsame"));

    let results = tree.get_payloads(&Path::from_elements(&[Root, Wildcard((1,1)), Name("same".into())]));
    println!("res={:#?}", results);
    assert!(results.len() == 2);
    assert!(results.contains(&&"s1same"));
    assert!(results.contains(&&"s2same"));

    let results = tree.get_payloads(&Path::from_elements(&[Root, Wildcard((0,10)), Name("same".into())]));
    println!("res={:#?}", results);
    assert!(results.len() == 3);
    assert!(results.contains(&&"s1same"));
    assert!(results.contains(&&"s2same"));
    assert!(results.contains(&&"srootsame"));
}

#[test]
fn PathTree_test_wildcard_in_tree()
{
    // roota        sroot
    //    l1        s1
    //      l11     s11
    //    l2        s2
    //      l21     s21
    //      light   s2light
    //      l22     s22
    //      *1,0    s2x
    //      *0,1    s2opt
    //    *0,100    severyting
    //      light   sanyLight
    let mut tree = PathTree::<&str>::new();
    tree.add_payload(&Path::from_elements(&[Root]), "sroot");
    tree.add_payload(&Path::from_elements(&[Root, Name("same".into())]), "srootsame");
    tree.add_payload(&Path::from_elements(&[Root, Wildcard((0,100))]), "severything");
    tree.add_payload(&Path::from_elements(&[Root, Wildcard((0,100)), Name("light".into())]), "sanyLight");
    tree.add_payload(&Path::from_elements(&[Root, Name("l1".into())]), "s1");
    tree.add_payload(&Path::from_elements(&[Root, Name("l1".into()), Name("l11".into())]), "s11");
    tree.add_payload(&Path::from_elements(&[Root, Name("l2".into())]), "s2");
    tree.add_payload(&Path::from_elements(&[Root, Name("l2".into()), Name("l21".into())]), "s21");
    tree.add_payload(&Path::from_elements(&[Root, Name("l2".into()), Name("light".into())]), "s2light");
    tree.add_payload(&Path::from_elements(&[Root, Name("l2".into()), Name("l22".into())]), "s22");
    tree.add_payload(&Path::from_elements(&[Root, Name("l2".into()), Name("l22".into())]), "s22");
    tree.add_payload(&Path::from_elements(&[Root, Name("l2".into()), Wildcard((1,0))]), "s2x");
    tree.add_payload(&Path::from_elements(&[Root, Name("l2".into()), Wildcard((0,1))]), "s2opt");

    let results = tree.get_payloads(&Path::from_elements(&[Root, Name("l1".into())]));
    println!("res={:#?}", results);
    assert!(results.len() == 2);
    assert!(results.contains(&&"s1"));
    assert!(results.contains(&&"severything"));

    let results = tree.get_payloads(&Path::from_elements(&[Root, Name("l2".into()), Name("light".into())]));
    println!("res={:#?}", results);
    assert!(results.len() == 5);
    assert!(results.contains(&&"s2opt"));
    assert!(results.contains(&&"s2x"));
    assert!(results.contains(&&"s2light"));
    assert!(results.contains(&&"sanyLight"));
    assert!(results.contains(&&"severything"));

    let results = tree.get_payloads(&Path::from_elements(&[Root, Name("l1".into()), Name("light".into())]));
    println!("res={:#?}", results);
    assert!(results.len() == 2);
    assert!(results.contains(&&"sanyLight"));
    assert!(results.contains(&&"severything"));

    let results = tree.get_payloads(&Path::from_elements(&[Root, Name("l2".into())]));
    println!("res={:#?}", results);
    assert!(results.len() == 3);
    assert!(results.contains(&&"s2"));
    assert!(results.contains(&&"s2opt"));
    assert!(results.contains(&&"severything"));
}

#[test]
fn PathTree_test_wildcard_in_tree_and_path()
{
    // roota        sroot
    //    l1        s1
    //      l11     s11
    //    l2        s2
    //      l21     s21
    //      light   s2light
    //      l22     s22
    //      *1,0    s2x
    //      *0,1    s2opt
    //    *0,100    severyting
    //      light   sanyLight
    //    same      srootsame
    let mut tree = PathTree::<&str>::new();
    tree.add_payload(&Path::from_elements(&[Root]), "sroot");
    tree.add_payload(&Path::from_elements(&[Root, Name("same".into())]), "srootsame");
    tree.add_payload(&Path::from_elements(&[Root, Wildcard((0,100))]), "severything");
    tree.add_payload(&Path::from_elements(&[Root, Wildcard((0,100)), Name("light".into())]), "sanyLight");
    tree.add_payload(&Path::from_elements(&[Root, Name("l1".into())]), "s1");
    tree.add_payload(&Path::from_elements(&[Root, Name("l1".into()), Name("l11".into())]), "s11");
    tree.add_payload(&Path::from_elements(&[Root, Name("l2".into())]), "s2");
    tree.add_payload(&Path::from_elements(&[Root, Name("l2".into()), Name("l21".into())]), "s21");
    tree.add_payload(&Path::from_elements(&[Root, Name("l2".into()), Name("light".into())]), "s2light");
    tree.add_payload(&Path::from_elements(&[Root, Name("l2".into()), Name("l22".into())]), "s22");
    tree.add_payload(&Path::from_elements(&[Root, Name("l2".into()), Wildcard((1,0))]), "s2x");
    tree.add_payload(&Path::from_elements(&[Root, Name("l2".into()), Wildcard((0,1))]), "s2opt");

    let results = tree.get_payloads(&Path::from_elements(&[Root, Wildcard((0,10))]));
    println!("res={:#?}", results);
    assert!(results.len() == 12);
    assert!(results.contains(&&"s1"));
    assert!(results.contains(&&"s11"));
    assert!(results.contains(&&"s2"));
    assert!(results.contains(&&"s21"));
    assert!(results.contains(&&"s2light"));
    assert!(results.contains(&&"s22"));
    assert!(results.contains(&&"s2x"));
    assert!(results.contains(&&"s2opt"));
    assert!(results.contains(&&"sanyLight"));
    assert!(results.contains(&&"severything"));
    assert!(results.contains(&&"sroot"));
    assert!(results.contains(&&"srootsame"));

    let results = tree.get_payloads(&Path::from_elements(&[Root, Wildcard((0,10)), Name("light".into())]));
    println!("res={:#?}", results);
    // `/l2/*` and `/l2/*0,1` match the segments `l2`, `light` as well.
    assert!(results.len() == 5);
    assert!(results.contains(&&"s2x"));
    assert!(results.contains(&&"s2opt"));
    assert!(results.contains(&&"severything"));
    assert!(results.contains(&&"sanyLight"));
    assert!(results.contains(&&"s2light"));
}
