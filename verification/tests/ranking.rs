use proximity_sort::rank::reorder;
use proximity_sort::rank::reorder_all;

fn b(s: &str) -> Vec<u8> {
    s.as_bytes().to_vec()
}

#[test]
fn check_file_reorder() {
    let mut rk = reorder(
        vec![
            b("test.txt"),
            b("bar/test.txt"),
            b("bar/main.txt"),
            b("misc/test.txt"),
        ],
        &b("bar/main.txt"),
    );
    let mut first_two: Vec<Vec<u8>> = Vec::new();
    for _ in 0..2 {
        first_two.push(rk.extract_max().unwrap().path);
    }
    assert_eq!(first_two, vec![b("bar/main.txt"), b("bar/test.txt")]);

    let mut rk = reorder(
        vec![
            b("baz/controller/admin.rb"),
            b("foobar/controller/user.rb"),
            b("baz/views/admin.rb"),
            b("foobar/controller/admin.rb"),
            b("foobar/views/admin.rb"),
        ],
        &b("foobar/controller/admin.rb"),
    );
    let mut first_three: Vec<Vec<u8>> = Vec::new();
    for _ in 0..3 {
        first_three.push(rk.extract_max().unwrap().path);
    }
    assert_eq!(
        first_three,
        vec![
            b("foobar/controller/admin.rb"),
            b("foobar/controller/user.rb"),
            b("foobar/views/admin.rb"),
        ]
    );
}

#[test]
fn check_root_is_closer() {
    assert_eq!(
        reorder_all(
            vec![b("a/foo.txt"), b("b/foo.txt"), b("foo.txt")],
            &b("a/null.txt"),
        ),
        vec![b("a/foo.txt"), b("foo.txt"), b("b/foo.txt")]
    );
}

#[test]
fn check_stable() {
    assert_eq!(
        reorder_all(vec![b("c.txt"), b("b.txt"), b("a.txt")], &b("null.txt")),
        vec![b("c.txt"), b("b.txt"), b("a.txt")]
    );
}

#[test]
fn skip_leading_dot() {
    assert_eq!(
        reorder_all(
            vec![b("./first.txt"), b("././second.txt"), b("third.txt")],
            &b("null.txt"),
        ),
        vec![b("./first.txt"), b("././second.txt"), b("third.txt")]
    );
}

#[test]
fn check_same_proximity_sorted() {
    assert_eq!(
        reorder_all(
            vec![
                b("b/2.txt"),
                b("b/1.txt"),
                b("a/x/2.txt"),
                b("a/x/1.txt"),
                b("a/2.txt"),
                b("a/1.txt"),
            ],
            &b("null.txt"),
        ),
        vec![
            b("b/2.txt"),
            b("b/1.txt"),
            b("a/2.txt"),
            b("a/1.txt"),
            b("a/x/2.txt"),
            b("a/x/1.txt"),
        ]
    );
}
