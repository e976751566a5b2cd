use water_sort::device::{
    read_video_codec_header, ScrcpyConfig, StreamDimensions, VideoHeaderError, H264_CODEC_ID,
};

fn header(codec: u32, width: u32, height: u32) -> [u8; 12] {
    let mut h = [0u8; 12];
    h[0..4].copy_from_slice(&codec.to_be_bytes());
    h[4..8].copy_from_slice(&width.to_be_bytes());
    h[8..12].copy_from_slice(&height.to_be_bytes());
    h
}

#[test]
fn codec_header_reads_dimensions() {
    let h = *b"h264\x00\x00\x03\x20\x00\x00\x06\x40";
    assert_eq!(
        read_video_codec_header(&h),
        Ok(StreamDimensions { width: 800, height: 1600 })
    );
    assert_eq!(
        read_video_codec_header(&header(H264_CODEC_ID, 1, 70000)),
        Ok(StreamDimensions { width: 1, height: 70000 })
    );
}

#[test]
fn codec_header_refuses_other_codecs() {
    let h = *b"h265\x00\x00\x03\x20\x00\x00\x06\x40";
    assert_eq!(
        read_video_codec_header(&h),
        Err(VideoHeaderError::UnexpectedCodec(0x6832_3635))
    );
    assert_eq!(
        read_video_codec_header(&header(0, 0, 0)),
        Err(VideoHeaderError::UnexpectedCodec(0))
    );
}

#[test]
fn codec_header_refuses_empty_pictures() {
    assert_eq!(
        read_video_codec_header(&header(H264_CODEC_ID, 0, 1600)),
        Err(VideoHeaderError::InvalidDimensions(0, 1600))
    );
    assert_eq!(
        read_video_codec_header(&header(H264_CODEC_ID, 800, 0)),
        Err(VideoHeaderError::InvalidDimensions(800, 0))
    );
}

#[test]
fn scrcpy_config_defaults() {
    let config = ScrcpyConfig::default();
    assert_eq!(config.max_size, 800);
    assert_eq!(config.max_fps, 15);
    assert_eq!(config.video_bit_rate, "2M");
    assert_eq!(config.video_codec, "h264");
    assert_eq!(
        config.launch_app,
        "com.no1ornothing.color.water.sort.woody.puzzle"
    );
}
