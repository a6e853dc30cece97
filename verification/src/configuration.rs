//! A run's configuration, as plain values.
//!
//! Directory options are carried as their listings: each requested picture
//! or background directory appears as the list of files found in it.
//! Reading the command line and the file system is the caller's work; the
//! model only decides what the values mean.

use vstd::prelude::*;
use crate::mi::fs::{SourceFile, FileV};
use crate::mi::img::Resolution;

verus! {

/// Everything a generation run is asked to do.
#[derive(Debug)]
pub struct Configuration {
    /// Listings of the picture directories, in option order.
    pub input_dirs: Vec<Vec<SourceFile>>,
    /// Listings of the background directories, in option order.
    pub background_dirs: Vec<Vec<SourceFile>>,
    /// One title per picture directory.
    pub collection_titles: Vec<String>,
    pub output_dir: String,
    pub template_dir: String,
    pub clean_output: bool,
    pub create_full_archive: bool,
    pub tumb_size: Resolution,
    pub display_size: Resolution,
    pub background_size: Resolution,
    pub resize_method: String,
    pub jpeg_quality: u8,
    pub threads: usize,
    pub verbose: u8,
    pub image_name_titles: bool,
}

/// The mathematical value of a [`Configuration`].
#[verifier::ext_equal]
pub ghost struct ConfigurationV {
    pub input_dirs: Seq<Seq<FileV>>,
    pub background_dirs: Seq<Seq<FileV>>,
    pub collection_titles: Seq<Seq<char>>,
    pub output_dir: Seq<char>,
    pub template_dir: Seq<char>,
    pub clean_output: bool,
    pub create_full_archive: bool,
    pub tumb_size: Resolution,
    pub display_size: Resolution,
    pub background_size: Resolution,
    pub resize_method: Seq<char>,
    pub jpeg_quality: u8,
    pub threads: usize,
    pub verbose: u8,
    pub image_name_titles: bool,
}

impl View for Configuration {
    type V = ConfigurationV;

    open spec fn view(&self) -> ConfigurationV {
        ConfigurationV {
            input_dirs: self.input_dirs.deep_view(),
            background_dirs: self.background_dirs.deep_view(),
            collection_titles: self.collection_titles.deep_view(),
            output_dir: self.output_dir@,
            template_dir: self.template_dir@,
            clean_output: self.clean_output,
            create_full_archive: self.create_full_archive,
            tumb_size: self.tumb_size,
            display_size: self.display_size,
            background_size: self.background_size,
            resize_method: self.resize_method@,
            jpeg_quality: self.jpeg_quality,
            threads: self.threads,
            verbose: self.verbose,
            image_name_titles: self.image_name_titles,
        }
    }
}

} // verus!
