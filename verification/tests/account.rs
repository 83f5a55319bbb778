use memtrigger::{start, Failure, MemoryStats, Outcome, Step, UsageRatios};
use users::os::unix::UserExt;

#[test]
fn start_uses_the_login_shell_of_the_current_user() {
    let stats = MemoryStats { mem_total: 10, mem_available: 1, swap_total: 0, swap_free: 0 };
    let ratios = UsageRatios::from_stats(&stats);
    let args: Vec<String> =
        vec!["prog".to_string(), "RAM".to_string(), "50".to_string(), "true".to_string()];
    let uid = users::get_current_uid();
    let expected = match users::get_user_by_uid(uid) {
        Some(user) => Step::Spawn(user.shell().to_path_buf(), "true".to_string()),
        None => Step::Done(Outcome::Failed(Failure::UnknownUser(uid))),
    };
    assert_eq!(start(&args, &ratios), expected);
}
