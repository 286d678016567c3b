use rand::Rng;
use rcore_os::pack::app_name;

#[test]
fn app_name_drops_the_extension() {
    assert_eq!(app_name("hello.bin"), "hello");
    assert_eq!(app_name("a.b.c"), "a");
    assert_eq!(app_name(".hidden"), "");
    assert_eq!(app_name("ünï.elf"), "ünï");
}

#[test]
fn app_name_of_random_names() {
    let mut rng = rand::thread_rng();
    for len in [1usize, 7, 40] {
        let name: String = (0..len).map(|_| char::from(b'0' + rng.gen::<u8>() % 10)).collect();
        assert_eq!(app_name(&format!("{}.rs", name)), name);
    }
}
