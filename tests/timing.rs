use random_picker::measure_exec_time;

#[test]
fn measures_a_closure() {
    let mut ran = false;
    let d = measure_exec_time(|| {
        ran = true;
    });
    assert!(ran);
    assert!(d.as_secs() < 60);
}
