use myftp::progress::ProgressBar;

#[test]
fn a_new_bar_counts_what_is_there() {
    let bar = ProgressBar::new(10, 4);
    assert_eq!(bar, ProgressBar { target: 10, current: 4 });
}

#[test]
fn update_adds_to_the_count() {
    let mut bar = ProgressBar::new(10, 4);
    bar.update(3);
    assert_eq!(bar, ProgressBar { target: 10, current: 7 });
    bar.update(0);
    assert_eq!(bar.current, 7);
    bar.update(5);
    assert_eq!(bar, ProgressBar { target: 10, current: 12 });
}

#[test]
fn done_counts_everything() {
    let mut bar = ProgressBar::new(10, 4);
    bar.done();
    assert_eq!(bar, ProgressBar { target: 10, current: 10 });
}
