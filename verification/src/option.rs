//! Engine start-up configuration: which device hosts the metadata store,
//! which devices and cores carry the blobstores.

use vstd::prelude::*;

use crate::blob_engine::BlobEngine;
use crate::device_engine::DeviceEngine;
use crate::utils::PAGE_SIZE;

verus! {

/// Binding of one blobstore device to the core that owns it.
#[derive(Debug, Clone)]
pub struct BsBindOpts {
    pub bdev_name: String,
    pub core: u32,
}

/// Configuration of one engine instance.
#[derive(Debug)]
pub struct EngineOpts {
    pub reactor_mask: String,
    pub config_file: String,
    pub start_blobfs: bool,
    pub blobfs_bdev: Option<String>,
    pub blobstore_bdev_list: Vec<BsBindOpts>,
    pub app_name: String,
    pub shutdown: bool,
}

impl Default for EngineOpts {
    fn default() -> (r: Self)
        ensures
            r.reactor_mask@ == "0x1"@,
            r.config_file@.len() == 0,
            !r.start_blobfs,
            r.blobfs_bdev is None,
            r.blobstore_bdev_list@.len() == 0,
            r.app_name@.len() == 0,
            !r.shutdown,
    {
        Self {
            reactor_mask: String::from_str("0x1"),
            config_file: String::new(),
            start_blobfs: false,
            blobfs_bdev: None,
            blobstore_bdev_list: Vec::new(),
            app_name: String::new(),
            shutdown: false,
        }
    }
}

impl EngineOpts {
    /// Choose the cores that run the backend's polling loops.
    pub fn set_reactor_mask(&mut self, mask: &str)
        ensures
            final(self).reactor_mask@ == mask@,
            final(self).config_file == old(self).config_file,
            final(self).start_blobfs == old(self).start_blobfs,
            final(self).blobfs_bdev == old(self).blobfs_bdev,
            final(self).blobstore_bdev_list == old(self).blobstore_bdev_list,
            final(self).app_name == old(self).app_name,
            final(self).shutdown == old(self).shutdown,
    {
        self.reactor_mask = String::from_str(mask);
    }

    /// Host the metadata store on this device.
    pub fn set_blobfs(&mut self, blobfs_bdev: &str)
        ensures
            final(self).start_blobfs,
            final(self).blobfs_bdev matches Some(b) && b@ == blobfs_bdev@,
            final(self).reactor_mask == old(self).reactor_mask,
            final(self).config_file == old(self).config_file,
            final(self).blobstore_bdev_list == old(self).blobstore_bdev_list,
            final(self).app_name == old(self).app_name,
            final(self).shutdown == old(self).shutdown,
    {
        self.start_blobfs = true;
        self.blobfs_bdev = Some(String::from_str(blobfs_bdev));
    }

    /// Bind the data blobstores to their devices and cores.
    pub fn set_blobstore(&mut self, blobstore_bdev_list: Vec<BsBindOpts>)
        ensures
            final(self).blobstore_bdev_list == blobstore_bdev_list,
            final(self).reactor_mask == old(self).reactor_mask,
            final(self).config_file == old(self).config_file,
            final(self).start_blobfs == old(self).start_blobfs,
            final(self).blobfs_bdev == old(self).blobfs_bdev,
            final(self).app_name == old(self).app_name,
            final(self).shutdown == old(self).shutdown,
    {
        self.blobstore_bdev_list = blobstore_bdev_list;
    }

    /// Label this engine instance.
    pub fn set_name(&mut self, app_name: &str)
        ensures
            final(self).app_name@ == app_name@,
            final(self).reactor_mask == old(self).reactor_mask,
            final(self).config_file == old(self).config_file,
            final(self).start_blobfs == old(self).start_blobfs,
            final(self).blobfs_bdev == old(self).blobfs_bdev,
            final(self).blobstore_bdev_list == old(self).blobstore_bdev_list,
            final(self).shutdown == old(self).shutdown,
    {
        self.app_name = String::from_str(app_name);
    }

    /// Name the backend configuration file.
    pub fn set_config_file(&mut self, config: String)
        ensures
            final(self).config_file == config,
            final(self).reactor_mask == old(self).reactor_mask,
            final(self).start_blobfs == old(self).start_blobfs,
            final(self).blobfs_bdev == old(self).blobfs_bdev,
            final(self).blobstore_bdev_list == old(self).blobstore_bdev_list,
            final(self).app_name == old(self).app_name,
            final(self).shutdown == old(self).shutdown,
    {
        self.config_file = config;
    }

    /// Wait until the metadata substrate and the blobstores stand; in
    /// this model both are ready as soon as they are built.
    pub fn ready(&self) -> (r: bool)
        ensures
            r == true,
    {
        true
    }

    /// Signal the backend to shut down.
    pub fn finish(&mut self)
        ensures
            final(self).shutdown,
            final(self).reactor_mask == old(self).reactor_mask,
            final(self).config_file == old(self).config_file,
            final(self).start_blobfs == old(self).start_blobfs,
            final(self).blobfs_bdev == old(self).blobfs_bdev,
            final(self).blobstore_bdev_list == old(self).blobstore_bdev_list,
            final(self).app_name == old(self).app_name,
    {
        self.shutdown = true;
    }

    /// Build the blob service for the first blobstore binding.
    pub fn create_be(&self, bs: DeviceEngine) -> (r: BlobEngine)
        requires
            self.blobstore_bdev_list@.len() > 0,
        ensures
            r.dev() == bs,
            r.spec_name() == self.blobstore_bdev_list@[0].bdev_name@,
            r.spec_core() == self.blobstore_bdev_list@[0].core,
            r.spec_io_size() == PAGE_SIZE,
    {
        BlobEngine::new(
            self.blobstore_bdev_list[0].bdev_name.as_str(),
            self.blobstore_bdev_list[0].core,
            PAGE_SIZE,
            bs,
        )
    }
}

} // verus!
