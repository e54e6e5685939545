use std::rc::Rc;

fn fun0(mut f: impl FnMut() -> u32) {
    for _ in 0..2 {
        f();
    }
}

fn fun1(mut f: impl FnMut(u32) -> u32) {
    for _ in 0..2 {
        f(123);
    }
}

fn fun2(mut f: impl FnMut(u32, &str) -> u32) {
    for _ in 0..2 {
        f(123, "test");
    }
}

#[test]
fn clone() {
    let v1 = Rc::new(10);
    let v2 = Rc::new(20);

    fun0({ let v1 = v1.clone(); move || *v1 + 123 });
    fun0({ let v1 = v1.clone(); let v2 = v2.clone(); move || *v1 + *v2 });

    fun1({ let v1 = v1.clone(); move |a1| *v1 + a1 });
    fun2({ let v1 = v1.clone(); move |a1, _a2| *v1 + a1 });

    fun1({ let renamed_v1 = v1.clone(); move |a1| *renamed_v1 + a1 });
    fun2({ let renamed_v1 = v1.clone(); move |a1, _a2| *renamed_v1 + a1 });

    fun1({ let v1 = v1.clone(); let v2 = v2.clone(); move |a1| *v1 + *v2 + a1 });
    fun2({ let v1 = v1.clone(); let v2 = v2.clone(); move |a1, _a2| *v1 + *v2 + a1 });

    fun1({ let renamed_v1 = v1.clone(); let v2 = v2.clone(); move |a1| *renamed_v1 + *v2 + a1 });
    fun1({ let v1 = v1.clone(); let renamed_v2 = v2.clone(); move |a1| *v1 + *renamed_v2 + a1 });
    fun1({ let renamed_v1 = v1.clone(); let renamed_v2 = v2.clone(); move |a1| *renamed_v1 + *renamed_v2 + a1 });

    fun2({ let renamed_v1 = v1.clone(); let v2 = v2.clone(); move |a1, _a2| *renamed_v1 + *v2 + a1 });
    fun2({ let v1 = v1.clone(); let renamed_v2 = v2.clone(); move |a1, _a2| *v1 + *renamed_v2 + a1 });
    fun2({ let renamed_v1 = v1.clone(); let renamed_v2 = v2.clone(); move |a1, _a2| *renamed_v1 + *renamed_v2 + a1 });

    assert_eq!(Rc::strong_count(&v1), 1);
    assert_eq!(Rc::strong_count(&v2), 1);
}
