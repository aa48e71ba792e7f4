use vstd::prelude::*;

verus! {

/// The service's launch configuration, as parsed from the command line.
#[derive(Debug)]
pub struct CliArg {
    pub base_dir: String,
    pub bind_address: String,
    pub bind_port: i32,
    pub log_conf: String,
}

impl CliArg {
    /// Gathers the launch configuration from plain values.
    pub fn new(base_dir: String, bind_address: String, bind_port: i32, log_conf: String) -> (r:
        CliArg)
        ensures
            r.base_dir == base_dir,
            r.bind_address == bind_address,
            r.bind_port == bind_port,
            r.log_conf == log_conf,
    {
        CliArg { base_dir, bind_address, bind_port, log_conf }
    }

    pub fn bind_port(&self) -> (r: i32)
        ensures
            r == self.bind_port,
    {
        self.bind_port
    }

    pub fn bind_address(&self) -> (r: &str)
        ensures
            r@ == self.bind_address@,
    {
        self.bind_address.as_str()
    }

    pub fn base_dir(&self) -> (r: &str)
        ensures
            r@ == self.base_dir@,
    {
        self.base_dir.as_str()
    }

    pub fn log4rs_config_file(&self) -> (r: &str)
        ensures
            r@ == self.log_conf@,
    {
        self.log_conf.as_str()
    }
}

} // verus!
