//! Where the out-of-band control service listens.

use vstd::prelude::*;
use crate::text::{decimal, decimal_string};
use crate::protocol::opt_view;

verus! {

/// The name of the control socket.
pub const SOCKET_NAME: &'static str = "levitating.notificationd";

/// The control address for the user `uid`: root on Linux gets the abstract
/// socket; everybody else a socket in the runtime directory, which is
/// `runtime_dir` where set, otherwise `/run` (or `/var/run` where `/run`
/// is missing), under `user/<uid>` for anybody but root. That last form is
/// written with a doubled leading slash (`//run/user/<uid>`), which names
/// the same directory.
pub open spec fn control_address(uid: u32, on_linux: bool, runtime_dir: Option<Seq<char>>, run_exists: bool) -> Seq<char> {
    if on_linux && uid == 0 {
        "unix:@"@ + SOCKET_NAME@
    } else {
        let base: Seq<char> = if run_exists {
            "/run"@
        } else {
            "/var/run"@
        };
        let dir = match runtime_dir {
            Some(d) => d,
            None => if uid == 0 {
                base
            } else {
                "/"@ + base + "/user/"@ + decimal(uid as nat)
            },
        };
        "unix:"@ + dir + "/"@ + SOCKET_NAME@
    }
}

/// The control address for the user `uid`; the caller looks up the
/// platform, the runtime directory and whether `/run` exists.
pub fn address(uid: u32, on_linux: bool, runtime_dir: Option<String>, run_exists: bool) -> (r: String)
    ensures
        r@ == control_address(uid, on_linux, opt_view(runtime_dir), run_exists),
{
    if on_linux && uid == 0 {
        let mut r = String::from_str("unix:@");
        r.append(SOCKET_NAME);
        return r;
    }
    let dir = match runtime_dir {
        Some(d) => d,
        None => {
            let base = if run_exists {
                String::from_str("/run")
            } else {
                String::from_str("/var/run")
            };
            if uid != 0 {
                let mut d = String::from_str("/");
                d.append(base.as_str());
                d.append("/user/");
                let n = decimal_string(uid as u64);
                d.append(n.as_str());
                d
            } else {
                base
            }
        },
    };
    let mut r = String::from_str("unix:");
    r.append(dir.as_str());
    r.append("/");
    r.append(SOCKET_NAME);
    r
}

} // verus!
