use vstd::prelude::*;

verus! {

/// Runtime configuration of the recorder. Loading and storing it as a file
/// is an external concern; the values themselves live here.
#[derive(Clone, Debug)]
pub struct Config {
    pub serial_port: String,
    pub serial_port_baud_rate: usize,
    pub sample_rate: usize,
    pub audio_frame_bytes_length: usize,
    pub audio_frame_number_bytes_length: usize,
    pub number_of_channels: usize,
    pub bytes_per_channel: usize,
    pub sync_bytes: Vec<u8>,
    pub output_files_prefix: String,
    pub output_wav_file_path: String,
    pub output_log_file_path: String,
}

impl Default for Config {
    /// The configuration written when none exists yet.
    fn default() -> (c: Config)
        ensures
            c.serial_port@ == "/dev/tty.usbmodem01234567891"@,
            c.serial_port_baud_rate == 2_000_000,
            c.sample_rate == 48000,
            c.audio_frame_bytes_length == 4000,
            c.audio_frame_number_bytes_length == 4,
            c.number_of_channels == 1,
            c.bytes_per_channel == 2,
            c.sync_bytes@ == seq![0xFFu8, 0x01, 0xFF, 0x02, 0xFF, 0x03, 0xFF, 0x04],
            c.output_files_prefix@ == "prefix"@,
            c.output_wav_file_path@ == "./"@,
            c.output_log_file_path@ == "./"@,
    {
        let mut sync_bytes: Vec<u8> = Vec::new();
        sync_bytes.push(0xFF);
        sync_bytes.push(0x01);
        sync_bytes.push(0xFF);
        sync_bytes.push(0x02);
        sync_bytes.push(0xFF);
        sync_bytes.push(0x03);
        sync_bytes.push(0xFF);
        sync_bytes.push(0x04);
        proof {
            assert(sync_bytes@ =~= seq![0xFFu8, 0x01, 0xFF, 0x02, 0xFF, 0x03, 0xFF, 0x04]);
        }
        Config {
            serial_port: "/dev/tty.usbmodem01234567891".to_owned(),
            serial_port_baud_rate: 2_000_000,
            sample_rate: 48000,
            audio_frame_bytes_length: 4000,
            audio_frame_number_bytes_length: 4,
            number_of_channels: 1,
            bytes_per_channel: 2,
            sync_bytes,
            output_files_prefix: "prefix".to_owned(),
            output_wav_file_path: "./".to_owned(),
            output_log_file_path: "./".to_owned(),
        }
    }
}

/// Knows where the configuration file lives.
pub struct ConfigManager {
    pub config_path: String,
}

impl ConfigManager {
    pub fn new(config_path: &str) -> (m: ConfigManager)
        ensures
            m.config_path@ == config_path@,
    {
        ConfigManager { config_path: config_path.to_owned() }
    }

    /// Relies on std::path::Path::exists: whether the configured path points
    /// at an existing entry of the file system; the answer depends on the
    /// machine's disk, so nothing is promised of it.
    #[verifier::external_body]
    pub fn is_config_exist(&mut self) -> (r: bool)
        ensures
            final(self).config_path == old(self).config_path,
    {
        std::path::Path::new(&self.config_path).exists()
    }
}

} // verus!
