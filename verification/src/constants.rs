//! Settings that differ between platforms, and the transformation rules.
use vstd::prelude::*;

verus! {

/// How compile commands are recorded on a platform, and where its rules are
/// published.
#[derive(Debug, Copy, Clone)]
pub struct PlatformConfig {
    pub bear: &'static str,
    pub bear_args: &'static [&'static str],
    pub url: &'static str,
}

impl PlatformConfig {
    /// The settings for Linux.
    pub fn linux() -> (c: PlatformConfig)
        ensures
            c.bear@ == "bear"@,
            c.bear_args@.map_values(|a: &str| a@) == seq!["--"@, "make"@],
            c.url@ == "http://bertrust.s3.amazonaws.com/crusts-linux.tar.gz"@,
    {
        let args: &'static [&'static str] = &["--", "make"];
        PlatformConfig {
            bear: "bear",
            bear_args: args,
            url: "http://bertrust.s3.amazonaws.com/crusts-linux.tar.gz",
        }
    }

    /// The settings for macOS.
    pub fn macos() -> (c: PlatformConfig)
        ensures
            c.bear@ == "bear"@,
            c.bear_args@.map_values(|a: &str| a@) == seq!["--"@, "make"@],
            c.url@ == "http://bertrust.s3.amazonaws.com/crusts-macosx.tar.gz"@,
    {
        let args: &'static [&'static str] = &["--", "make"];
        PlatformConfig {
            bear: "bear",
            bear_args: args,
            url: "http://bertrust.s3.amazonaws.com/crusts-macosx.tar.gz",
        }
    }

    /// The settings for Windows.
    pub fn windows() -> (c: PlatformConfig)
        ensures
            c.bear@ == "intercept-build"@,
            c.bear_args@.map_values(|a: &str| a@) == seq!["make"@],
            c.url@ == "http://bertrust.s3.amazonaws.com/crusts-windows.tar.gz"@,
    {
        let args: &'static [&'static str] = &["make"];
        PlatformConfig {
            bear: "intercept-build",
            bear_args: args,
            url: "http://bertrust.s3.amazonaws.com/crusts-windows.tar.gz",
        }
    }
}

/// The names of the TXL rules, in the order in which they are applied.
pub open spec fn rule_names() -> Seq<Seq<char>> {
    seq![
        "formalizeCode.x"@,
        "varTypeNoBounds.x"@,
        "null.x"@,
        "array.x"@,
        "fn.x"@,
        "errnoLocation.x"@,
        "atoi.x"@,
        "time.x"@,
        "const2mut.x"@,
        "stdio.x"@,
        "unsafe.x"@,
    ]
}

/// The TXL rules, in the order in which they are applied.
pub fn rules() -> (r: &'static [&'static str])
    ensures
        r@.map_values(|a: &str| a@) == rule_names(),
{
    let r: &'static [&'static str] = &[
        "formalizeCode.x",
        "varTypeNoBounds.x",
        "null.x",
        "array.x",
        "fn.x",
        "errnoLocation.x",
        "atoi.x",
        "time.x",
        "const2mut.x",
        "stdio.x",
        "unsafe.x",
    ];
    r
}

} // verus!
