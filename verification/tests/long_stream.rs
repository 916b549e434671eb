use gzip_decoder::decompress;
use gzip_decoder::error::{ErrorKind};
use gzip_decoder::sink::ByteSink;

// Twenty thousand letters, three times over and a tail: the second and the
// third time are back-references of distance 20000.
const LONG: [u8; 6758] = [
    0x1f, 0x8b, 0x08, 0x00, 0x00, 0x00, 0x00, 0x00, 0x02, 0x03, 0xed, 0x9c, 0x49, 0xae, 0x25, 0x39,
    0x0e, 0x04, 0xcf, 0x4a, 0x70, 0x41, 0x34, 0xd0, 0x4b, 0xdd, 0x1f, 0xfd, 0x83, 0x66, 0xae, 0x97,
    0x7d, 0x07, 0xa1, 0xb2, 0xaa, 0xf2, 0x4d, 0x11, 0x0a, 0x89, 0x83, 0xd3, 0x39, 0x54, 0xf5, 0x9c,
    0xee, 0x99, 0xae, 0x33, 0xe7, 0x54, 0xff, 0xfd, 0x73, 0xfa, 0xfb, 0x7f, 0x7d, 0x9f, 0xcc, 0xdf,
    0xbb, 0x7f, 0x6f, 0xcf, 0xdf, 0x1b, 0xfd, 0x7d, 0xe5, 0xef, 0x7f, 0x7f, 0x7f, 0xfa, 0xef, 0xcd,
    0xd9, 0xf7, 0xfe, 0xbe, 0x59, 0x7f, 0xef, 0x7f, 0xdf, 0xfa, 0xbe, 0xf6, 0xf7, 0xb7, 0xef, 0x7b,
    0xa7, 0xfe, 0x3e, 0xdc, 0x37, 0xbf, 0x37, 0xe6, 0xef, 0xcf, 0xdf, 0x75, 0xfe, 0xae, 0xf5, 0xf7,
    0xba, 0xcf, 0x39, 0x7f, 0x2f, 0xbf, 0xbf, 0x7f, 0x3f, 0xfd, 0xbb, 0xc3, 0xdf, 0xfb, 0xdf, 0x3d,
    0x6b, 0x3f, 0xff, 0xfb, 0xd1, 0xfe, 0xed, 0xef, 0xa2, 0x7f, 0xdf, 0xfb, 0x7b, 0xf5, 0x77, 0xa5,
    0xd9, 0x5b, 0xfe, 0xad, 0xf2, 0xef, 0x6f, 0x7b, 0xc9, 0xbf, 0x8b, 0xed, 0x2d, 0xbf, 0x77, 0xeb,
    0x7b, 0xb9, 0xb7, 0xf9, 0xbb, 0x6c, 0xcd, 0x2e, 0xfd, 0xfb, 0xfc, 0xef, 0xea, 0x7f, 0x57, 0x29,
    0x16, 0xff, 0xf7, 0xea, 0xbb, 0x3d, 0xff, 0xee, 0x95, 0xf6, 0x51, 0xbe, 0xcf, 0xbe, 0xa7, 0xa8,
    0xd9, 0x4d, 0xf8, 0xd6, 0xfe, 0xdd, 0xf4, 0x7b, 0x5a, 0x16, 0xf5, 0x5d, 0x81, 0xeb, 0xee, 0x13,
    0xfc, 0x5d, 0x6d, 0xf6, 0xe2, 0xfb, 0x29, 0x5f, 0xad, 0xbd, 0xc0, 0xb7, 0x92, 0xd9, 0xcf, 0xbf,
    0x2f, 0xcc, 0x3e, 0xfb, 0xf9, 0x1e, 0xfd, 0x7b, 0xe2, 0xef, 0xf2, 0xac, 0x6b, 0x2f, 0xb5, 0xcf,
    0xb8, 0x0f, 0xfb, 0x3d, 0xfb, 0xf7, 0xb8, 0xfb, 0x28, 0xdf, 0x43, 0x0c, 0x0b, 0x39, 0x67, 0x1f,
    0x62, 0xb7, 0x78, 0x1f, 0xfb, 0x7c, 0x27, 0xc4, 0x7f, 0x76, 0xbb, 0xf7, 0x9f, 0xef, 0x68, 0x76,
    0xd9, 0xdf, 0xaf, 0xfe, 0xee, 0xf0, 0xad, 0xeb, 0xef, 0x9f, 0xef, 0xcf, 0x77, 0x4a, 0xb5, 0x07,
    0xd8, 0x6e, 0x39, 0x0b, 0xf9, 0xfb, 0x9b, 0xc7, 0x75, 0xbe, 0xc5, 0xd6, 0x6e, 0xe8, 0x6e, 0xf1,
    0xb7, 0x2d, 0xdf, 0x23, 0xec, 0x8a, 0xeb, 0xfb, 0xcd, 0xf7, 0x04, 0xfd, 0x3d, 0xdd, 0x6e, 0xd0,
    0xd9, 0x23, 0xe5, 0x88, 0x76, 0xdf, 0xcf, 0x6e, 0x0d, 0x77, 0xce, 0x85, 0xbe, 0x1b, 0xed, 0xef,
    0x66, 0x57, 0x71, 0x7c, 0xee, 0x6f, 0x3b, 0xbe, 0x3d, 0xe8, 0xbd, 0xed, 0x5e, 0xb3, 0xbf, 0x15,
    0x7d, 0xb2, 0xf3, 0x5d, 0xb7, 0xf8, 0x7b, 0x7f, 0xa7, 0xf5, 0x09, 0x4f, 0xb3, 0xc6, 0xd9, 0xc3,
    0xfd, 0x2e, 0xf8, 0x77, 0xad, 0xee, 0x66, 0xe7, 0xbe, 0x1f, 0x7f, 0x0b, 0x68, 0xbe, 0xfa, 0x3d,
    0xd6, 0xf7, 0xc5, 0x52, 0x30, 0xbe, 0x75, 0x7c, 0x0f, 0xfc, 0x2d, 0x72, 0x8f, 0x74, 0xf6, 0xbf,
    0x2b, 0xb6, 0x07, 0x31, 0xdd, 0xcf, 0xbf, 0xf5, 0x9f, 0xdd, 0xc6, 0x3e, 0x8a, 0x02, 0x87, 0x8a,
    0x40, 0xef, 0x5d, 0x8f, 0x37, 0x1d, 0xee, 0xf8, 0xfd, 0xa0, 0x11, 0xfb, 0x6f, 0x49, 0xa7, 0x73,
    0x46, 0x48, 0x6a, 0xad, 0x20, 0x57, 0x73, 0xdd, 0xbd, 0x7e, 0xad, 0xc6, 0xac, 0x5e, 0xed, 0x5d,
    0x56, 0xfe, 0xbe, 0x9b, 0x37, 0x42, 0xb7, 0x4a, 0xc7, 0xc6, 0xcd, 0x3e, 0x29, 0xe2, 0xb5, 0xf7,
    0x5b, 0x21, 0x6c, 0x34, 0xe3, 0xfb, 0xd6, 0x77, 0x87, 0x6f, 0xdf, 0x6a, 0x9f, 0x6b, 0x15, 0x6f,
    0x05, 0x96, 0xa7, 0xaf, 0x2c, 0xea, 0xdb, 0x66, 0x24, 0x78, 0xff, 0xd7, 0x3e, 0xc4, 0x5e, 0x7d,
    0x35, 0x71, 0x4f, 0xfe, 0x0c, 0x32, 0xcd, 0xfe, 0x1f, 0x36, 0x67, 0x95, 0x41, 0x89, 0x2b, 0x16,
    0xd0, 0x7b, 0x94, 0x7e, 0x7a, 0x3c, 0xe5, 0xb3, 0x42, 0xb5, 0x52, 0xd7, 0xab, 0x14, 0x2b, 0x5e,
    0x7b, 0xde, 0x2b, 0x17, 0x31, 0x26, 0xfb, 0xdb, 0x59, 0xe1, 0x5c, 0x35, 0xdb, 0xbd, 0x59, 0xed,
    0x58, 0xe1, 0x38, 0xa8, 0xee, 0xc9, 0x9f, 0xdd, 0xe9, 0x59, 0x8b, 0xa3, 0xba, 0xcf, 0xae, 0x4e,
    0x19, 0xfe, 0x9e, 0x71, 0xe5, 0xeb, 0x9c, 0xf1, 0xf0, 0xbf, 0x85, 0xf4, 0xea, 0xdc, 0xb7, 0xc1,
    0x15, 0x1d, 0x5a, 0x29, 0x5f, 0x81, 0xdf, 0x6f, 0x73, 0xec, 0x08, 0xc6, 0x2a, 0xc5, 0x7e, 0xf8,
    0x09, 0xe5, 0xee, 0x70, 0xef, 0x42, 0x67, 0x4f, 0x5f, 0x95, 0x5f, 0x8b, 0xc3, 0x42, 0x3e, 0x59,
    0x59, 0x0b, 0xb2, 0x36, 0xe8, 0xee, 0xc8, 0xca, 0xef, 0x9e, 0xc9, 0xde, 0x8f, 0x4b, 0x36, 0xd6,
    0xa4, 0x58, 0xe2, 0x3e, 0x62, 0x71, 0xec, 0x98, 0x41, 0x16, 0xd2, 0x51, 0x24, 0x2c, 0xd4, 0xee,
    0x83, 0x6f, 0xec, 0xb3, 0x64, 0x93, 0x1a, 0x29, 0xff, 0x56, 0xd8, 0xd7, 0x5e, 0xad, 0x61, 0x6b,
    0x4e, 0x89, 0x33, 0x58, 0x81, 0xd4, 0x74, 0x1f, 0xc5, 0x64, 0x17, 0xb2, 0x6f, 0x7d, 0x7b, 0xc8,
    0x2a, 0x57, 0x95, 0x79, 0x60, 0x4d, 0x60, 0x21, 0xa2, 0xfb, 0x38, 0xdf, 0xf7, 0xf6, 0xdc, 0xd6,
    0xc6, 0xac, 0x7d, 0xe7, 0xe0, 0xf7, 0xab, 0x2b, 0xf3, 0x6b, 0x45, 0xf7, 0xb1, 0x87, 0xab, 0xee,
    0x19, 0xf1, 0xbc, 0x7d, 0x30, 0xcf, 0xfb, 0xf5, 0x8a, 0x31, 0xe4, 0xc5, 0x6e, 0xfa, 0xf8, 0x6d,
    0x05, 0x09, 0x5f, 0xf3, 0xa9, 0x73, 0xef, 0x92, 0xc6, 0x93, 0x29, 0xcd, 0xca, 0xda, 0x0c, 0xe5,
    0x75, 0x05, 0x66, 0x57, 0x8d, 0x32, 0xaf, 0x7c, 0xae, 0xe0, 0xe2, 0x3a, 0x1a, 0x0b, 0x3f, 0x1c,
    0x55, 0xb1, 0xce, 0x35, 0xae, 0x2b, 0x40, 0xbd, 0xc7, 0xbc, 0xe2, 0xfe, 0x49, 0x0b, 0x26, 0x6e,
    0x0d, 0xcd, 0xf7, 0x09, 0xb2, 0xcf, 0xcd, 0x66, 0xd7, 0xd3, 0xc8, 0xc1, 0x77, 0xae, 0x2b, 0xdc,
    0xd8, 0x0e, 0x14, 0x77, 0xae, 0x01, 0xd7, 0x8e, 0xce, 0x5a, 0xc2, 0xde, 0xcf, 0x3f, 0x99, 0xd8,
    0x4b, 0xd5, 0x6e, 0x1e, 0x0e, 0xb1, 0x59, 0xff, 0xe1, 0x64, 0xf7, 0x9e, 0x67, 0x2d, 0xd6, 0x5e,
    0x4e, 0xc1, 0xc2, 0xb8, 0xac, 0x58, 0xb4, 0xba, 0x87, 0x02, 0x9f, 0x7c, 0x8b, 0xe3, 0xea, 0x35,
    0x5c, 0xab, 0x15, 0x78, 0xe2, 0x51, 0x5a, 0xe3, 0x58, 0x3f, 0x19, 0xaf, 0x9f, 0xe5, 0xd3, 0x1d,
    0x57, 0x61, 0xd1, 0x0a, 0x0f, 0x72, 0x7f, 0xd7, 0x38, 0x70, 0x0e, 0x70, 0xfd, 0xca, 0xc1, 0xdf,
    0x60, 0x9a, 0xf7, 0x3e, 0x07, 0xaf, 0x82, 0x95, 0xc6, 0x26, 0xec, 0x96, 0xac, 0xe3, 0xd9, 0xb5,
    0xe1, 0xd8, 0x51, 0x6e, 0x35, 0xe3, 0xdb, 0x8a, 0xb5, 0xe2, 0x18, 0x87, 0x35, 0x9b, 0x7b, 0xe8,
    0x48, 0x10, 0x5e, 0x75, 0xbf, 0x87, 0xca, 0x8c, 0xba, 0xbb, 0x38, 0x01, 0xaf, 0xc4, 0x5a, 0xfa,
    0x68, 0xcb, 0xd0, 0x8d, 0x56, 0xa7, 0xd6, 0x3c, 0xf2, 0x60, 0x8a, 0x79, 0xaf, 0xdd, 0xec, 0x58,
    0x27, 0x9e, 0x70, 0xff, 0x37, 0x85, 0x1d, 0x3b, 0xb1, 0xfe, 0x0b, 0x4f, 0x56, 0x6e, 0xd7, 0x34,
    0xa3, 0x2c, 0xc8, 0xd9, 0xbe, 0x1c, 0xd6, 0x71, 0x9a, 0x43, 0xf8, 0x49, 0xff, 0xe2, 0x95, 0x66,
    0x1f, 0x95, 0x8e, 0x15, 0x22, 0x90, 0xd0, 0x1a, 0x94, 0x83, 0x86, 0xa0, 0x33, 0x98, 0xa0, 0x83,
    0xb4, 0x14, 0x87, 0xb6, 0x27, 0x0f, 0x00, 0xc2, 0x30, 0xee, 0xae, 0x1f, 0x0c, 0x75, 0xe1, 0xd3,
    0x17, 0xb4, 0x70, 0x80, 0x6b, 0xd5, 0x57, 0xf5, 0x63, 0x6d, 0xd6, 0x36, 0xe3, 0x47, 0xd6, 0x10,
    0xe9, 0xc5, 0x31, 0xf6, 0x1c, 0x33, 0xce, 0x56, 0xf1, 0x5c, 0x77, 0xb3, 0xe7, 0x80, 0x38, 0xe9,
    0xe9, 0x79, 0x62, 0xbc, 0x2b, 0xc0, 0x0d, 0x67, 0xb2, 0x27, 0xb2, 0x3f, 0x59, 0x27, 0x86, 0x49,
    0x56, 0x11, 0x06, 0xd1, 0xba, 0xf7, 0xda, 0xf3, 0x2c, 0x6e, 0x77, 0x74, 0x0f, 0x85, 0xa3, 0xdb,
    0xef, 0x73, 0x8f, 0xb5, 0x5b, 0xab, 0x06, 0x81, 0x11, 0xab, 0x12, 0x9a, 0x5f, 0x9c, 0x57, 0x73,
    0xdc, 0xfb, 0x45, 0x1e, 0x66, 0x14, 0xd7, 0x8a, 0x17, 0x0c, 0xb8, 0x3a, 0xdc, 0xbe, 0x80, 0x11,
    0x31, 0x38, 0x6b, 0x5f, 0xaf, 0x9e, 0xed, 0x13, 0x8c, 0xef, 0xf5, 0x7a, 0x07, 0xed, 0xcc, 0x41,
    0x54, 0xcf, 0x5a, 0x28, 0xb1, 0xcd, 0xaa, 0xdf, 0xae, 0x65, 0xb2, 0xec, 0x06, 0xf2, 0xf5, 0x7a,
    0xe6, 0xbd, 0x27, 0x50, 0x66, 0x0f, 0x98, 0x27, 0x02, 0xe7, 0xf1, 0x34, 0xab, 0xec, 0xbd, 0x26,
    0x89, 0xf3, 0x6c, 0x5c, 0x68, 0x8b, 0x2f, 0x55, 0x9f, 0xe6, 0x98, 0x41, 0x05, 0x18, 0x29, 0x96,
    0xdf, 0x51, 0x75, 0x4c, 0xcc, 0x1a, 0x25, 0xbc, 0x08, 0x27, 0x88, 0xd9, 0x18, 0x36, 0x1f, 0x2c,
    0xc8, 0xf1, 0x5e, 0x75, 0x28, 0x04, 0x17, 0x43, 0xc9, 0x72, 0x02, 0xaa, 0xb0, 0x85, 0x8d, 0x9f,
    0xe0, 0xa9, 0x71, 0x29, 0x20, 0x64, 0x4d, 0xdc, 0x3a, 0x37, 0x84, 0x7a, 0x62, 0xa6, 0x5b, 0xf9,
    0x15, 0xbe, 0xae, 0x4e, 0xad, 0x28, 0x62, 0x3c, 0x4a, 0x10, 0xbb, 0x52, 0xb4, 0xc2, 0xdd, 0xbe,
    0x3c, 0x9a, 0xd6, 0x7d, 0x4c, 0x34, 0xa8, 0xc1, 0xbb, 0xa8, 0xe1, 0xd1, 0xa4, 0x80, 0xcc, 0xd0,
    0x2e, 0x70, 0xdd, 0xee, 0xc6, 0x6a, 0x22, 0xcf, 0x87, 0xfb, 0xe8, 0xd6, 0xc3, 0xbb, 0x67, 0x43,
    0x80, 0xb2, 0x9e, 0x72, 0xe2, 0x4c, 0xdc, 0x02, 0x43, 0x02, 0x36, 0x6e, 0x88, 0x65, 0xc0, 0x7b,
    0x20, 0xa5, 0x03, 0xc2, 0x5b, 0x2b, 0x35, 0x8a, 0xc1, 0x01, 0x0d, 0xae, 0x3f, 0xc5, 0x18, 0x02,
    0x27, 0x55, 0xef, 0xdd, 0x1a, 0x5d, 0xe7, 0x20, 0xd1, 0x18, 0x28, 0xd6, 0xab, 0xb3, 0x2f, 0x10,
    0x64, 0x63, 0x09, 0xae, 0xcf, 0x53, 0xf5, 0x62, 0x1e, 0x02, 0x3f, 0x09, 0x0a, 0x86, 0x90, 0xe6,
    0xb4, 0x91, 0x0e, 0xab, 0x10, 0xa7, 0x16, 0xc6, 0xf5, 0x88, 0x87, 0xd6, 0xca, 0x03, 0xab, 0x70,
    0x25, 0x00, 0x21, 0xdf, 0x44, 0xf6, 0x70, 0xb6, 0xfb, 0x74, 0x41, 0xab, 0x44, 0x4a, 0x2d, 0xf2,
    0xd6, 0xb6, 0x06, 0xe6, 0x07, 0x3d, 0x15, 0x38, 0x7a, 0x77, 0x8a, 0xdb, 0xad, 0xc5, 0x5e, 0x65,
    0xdd, 0x75, 0x1a, 0xfe, 0xb5, 0x80, 0xec, 0x8c, 0x36, 0x18, 0xab, 0x8f, 0x8d, 0xe5, 0x0e, 0x22,
    0xd9, 0x5d, 0x31, 0x1b, 0xbb, 0xae, 0xa4, 0x13, 0x0f, 0xf0, 0x31, 0x72, 0x59, 0xff, 0x9c, 0xd5,
    0xfe, 0x7c, 0xa1, 0x11, 0x70, 0xbd, 0x95, 0xf9, 0xc3, 0xa3, 0x26, 0xdc, 0x14, 0x19, 0xe0, 0xf4,
    0x36, 0x1c, 0x58, 0xaf, 0xe8, 0x37, 0x8f, 0x21, 0x1c, 0x98, 0x19, 0x53, 0x85, 0x4c, 0x01, 0x21,
    0x6b, 0xe5, 0x89, 0x8d, 0x2d, 0x45, 0x3f, 0x0a, 0x0b, 0xb6, 0x32, 0xbc, 0xdd, 0x8d, 0xed, 0x12,
    0x4a, 0x36, 0x36, 0x20, 0xae, 0x1a, 0x13, 0xdc, 0x40, 0x7c, 0xd5, 0x7b, 0x88, 0x7b, 0xf0, 0xdd,
    0x28, 0x1a, 0xa2, 0x8b, 0x8e, 0xa3, 0x33, 0xa0, 0x62, 0xdd, 0x8e, 0x30, 0xbf, 0x3c, 0x13, 0x36,
    0xc8, 0x60, 0x17, 0xd9, 0xc0, 0x25, 0xe2, 0xfd, 0x44, 0xc6, 0x87, 0x5d, 0x22, 0x98, 0xae, 0x11,
    0xed, 0xb2, 0xf0, 0xe1, 0xb4, 0xe7, 0x74, 0x90, 0xf6, 0xea, 0xc7, 0x86, 0x4c, 0xc5, 0x05, 0xd7,
    0x18, 0x35, 0x27, 0xa0, 0x30, 0x13, 0x8b, 0x10, 0x4b, 0x6a, 0x43, 0xd6, 0x19, 0x13, 0x36, 0x75,
    0xc7, 0xe0, 0xef, 0x03, 0x1b, 0xb3, 0x67, 0x21, 0xbb, 0x77, 0xab, 0x74, 0x0d, 0xae, 0x30, 0xa8,
    0x22, 0x82, 0xe0, 0x33, 0xa0, 0x31, 0xc1, 0x0a, 0x72, 0x03, 0x10, 0x4e, 0x2c, 0x0b, 0x54, 0x59,
    0x29, 0x58, 0x81, 0xde, 0x73, 0x6d, 0xb6, 0x23, 0x51, 0x59, 0x0c, 0x2e, 0xa1, 0x99, 0x31, 0x66,
    0xe9, 0x8d, 0xf0, 0x1c, 0x0d, 0xd8, 0xc7, 0x7d, 0x61, 0x10, 0x71, 0x28, 0xa0, 0x69, 0x9c, 0xe8,
    0x4c, 0x34, 0x02, 0x9b, 0x36, 0xb8, 0x87, 0x22, 0x0e, 0x03, 0xd6, 0x6b, 0xd9, 0x79, 0xc0, 0x02,
    0x65, 0x1a, 0xa6, 0x62, 0x1d, 0x70, 0xf8, 0xeb, 0x12, 0xf0, 0xb3, 0x2b, 0x9d, 0x40, 0xa6, 0xd1,
    0xca, 0xac, 0x7d, 0x54, 0x8d, 0x85, 0xbd, 0xf0, 0x07, 0xa3, 0xe0, 0xae, 0xa0, 0x12, 0x2c, 0x40,
    0x84, 0x10, 0x39, 0x60, 0xdc, 0x88, 0xe2, 0x95, 0x80, 0x0a, 0xb2, 0xd2, 0xa6, 0x20, 0x98, 0x84,
    0x04, 0x15, 0xb9, 0xdd, 0x93, 0x1b, 0x62, 0x0c, 0xb8, 0x90, 0xe3, 0xc3, 0xae, 0x14, 0x9f, 0x93,
    0xa5, 0x8c, 0x82, 0x8d, 0x01, 0x27, 0x66, 0x13, 0xaa, 0x54, 0xbb, 0x16, 0x54, 0xc2, 0xe0, 0x07,
    0x83, 0x84, 0xe6, 0xe1, 0x9f, 0x56, 0xda, 0xf1, 0x1d, 0x2a, 0x9b, 0xb1, 0x89, 0x70, 0x52, 0x9a,
    0x01, 0x9f, 0xcb, 0x93, 0x71, 0x0c, 0x2c, 0xb0, 0x2f, 0xe1, 0xc2, 0x97, 0x70, 0xd3, 0x6b, 0x46,
    0xb9, 0x78, 0x4b, 0x6f, 0x60, 0xcb, 0xc7, 0xd8, 0xb0, 0x75, 0x84, 0x33, 0x3f, 0xe1, 0x45, 0x72,
    0xaa, 0xb5, 0x39, 0xad, 0x43, 0x0d, 0xf5, 0x02, 0x93, 0xb2, 0xcf, 0x8e, 0xbd, 0x97, 0x81, 0x59,
    0x65, 0xc1, 0xbf, 0x66, 0x67, 0x51, 0xea, 0xc2, 0x97, 0xc2, 0x73, 0xe8, 0x85, 0xf0, 0x17, 0xd3,
    0x71, 0x31, 0x07, 0xdf, 0x83, 0xf4, 0x12, 0xd8, 0x86, 0x2d, 0x0a, 0x5a, 0x84, 0xf3, 0xd9, 0x73,
    0xac, 0xeb, 0x94, 0x94, 0x5a, 0x98, 0x99, 0x51, 0x1a, 0x0f, 0xf1, 0xb7, 0x58, 0x16, 0xdd, 0xa9,
    0x4b, 0x6c, 0x24, 0x54, 0xe2, 0x56, 0x02, 0xf8, 0x83, 0x81, 0x2e, 0xf8, 0x37, 0x02, 0x6e, 0x34,
    0xbf, 0x45, 0x87, 0x42, 0x60, 0x4f, 0x79, 0x7f, 0x02, 0x60, 0xc0, 0x1d, 0x16, 0xa1, 0xfe, 0x39,
    0x81, 0x17, 0xc0, 0xa4, 0x43, 0x20, 0x2f, 0xd6, 0x5b, 0xdd, 0x37, 0x94, 0x6d, 0x80, 0xbe, 0xfb,
    0x3c, 0x70, 0x1b, 0xc6, 0x89, 0x07, 0xef, 0xb9, 0xea, 0x75, 0x88, 0x1f, 0x80, 0x09, 0x6b, 0xbf,
    0x8d, 0x65, 0xb0, 0x60, 0x0b, 0x28, 0x0b, 0xa6, 0xd1, 0xd8, 0x4f, 0xbd, 0x85, 0x46, 0x03, 0xcc,
    0x1f, 0xc8, 0x8d, 0x41, 0x97, 0x02, 0xb5, 0x55, 0x95, 0x85, 0x75, 0x98, 0xf1, 0x72, 0x79, 0xe7,
    0x92, 0x5f, 0xc4, 0xeb, 0x46, 0x48, 0x70, 0x33, 0xf3, 0x73, 0x73, 0x07, 0xf8, 0x2f, 0x62, 0x5d,
    0x4d, 0x84, 0x1f, 0x3c, 0xc2, 0xec, 0x35, 0x58, 0x18, 0xfc, 0x8d, 0x0f, 0x16, 0x80, 0x8e, 0xf0,
    0x6b, 0xb7, 0xa5, 0x88, 0x71, 0x79, 0xdc, 0x33, 0xf1, 0xab, 0xc0, 0x1b, 0x7c, 0xb8, 0xf1, 0x3e,
    0x5f, 0xbb, 0x04, 0x21, 0x36, 0x4f, 0x51, 0xc5, 0x1e, 0x7b, 0x10, 0x09, 0x8d, 0x8a, 0x8b, 0x01,
    0x26, 0xa2, 0x14, 0xb1, 0xfa, 0x5d, 0xd1, 0xbe, 0x56, 0x1d, 0x8e, 0x06, 0x53, 0x12, 0x12, 0x68,
    0x86, 0x6c, 0x4a, 0x3e, 0x01, 0x75, 0xbd, 0xb3, 0x67, 0xcc, 0x75, 0xb4, 0x70, 0x8d, 0x77, 0x1f,
    0xe9, 0x57, 0x22, 0xe9, 0x4a, 0xd8, 0x3c, 0x62, 0x7f, 0xf6, 0x61, 0x82, 0x7e, 0x61, 0x7f, 0x10,
    0xac, 0xdd, 0x1a, 0x64, 0x15, 0xee, 0x18, 0x5c, 0x73, 0x12, 0xb0, 0x63, 0xa9, 0x75, 0x13, 0x7e,
    0xba, 0x11, 0x90, 0xf0, 0x3e, 0xc4, 0x19, 0x6c, 0x55, 0x30, 0xda, 0x6e, 0x98, 0x5c, 0x6d, 0x43,
    0x24, 0x94, 0xdc, 0x0d, 0xe4, 0xc3, 0x2e, 0x4a, 0x17, 0x16, 0x22, 0x52, 0x1b, 0xab, 0xa5, 0xad,
    0xb0, 0x57, 0xc4, 0x8f, 0x41, 0x1f, 0x33, 0xc6, 0x1a, 0xc4, 0xd6, 0x6d, 0xcc, 0x4a, 0xf8, 0x31,
    0x30, 0x63, 0x2d, 0x1f, 0x73, 0x23, 0xc8, 0x36, 0x06, 0xc0, 0x8c, 0xec, 0xfe, 0xe3, 0x94, 0x7f,
    0x1e, 0xe6, 0x17, 0xfc, 0x00, 0x23, 0x12, 0xf7, 0x55, 0x02, 0x03, 0x29, 0xe2, 0xc2, 0xeb, 0x6e,
    0xec, 0x36, 0x38, 0x4a, 0x5c, 0x6c, 0xc1, 0x29, 0x10, 0xe5, 0x9f, 0xeb, 0x54, 0xd7, 0x74, 0x80,
    0x7a, 0x4a, 0x22, 0x95, 0x48, 0x90, 0x80, 0x17, 0x08, 0x08, 0x84, 0x2a, 0x5c, 0xd1, 0xc1, 0x60,
    0x43, 0x54, 0x1d, 0xe8, 0x2e, 0x49, 0xa1, 0xbe, 0x51, 0x32, 0xe8, 0xb8, 0x65, 0x7d, 0x38, 0xeb,
    0x30, 0xc4, 0x9a, 0xbf, 0x11, 0xef, 0x42, 0xa7, 0xb0, 0x7a, 0x4c, 0xf6, 0xd1, 0x21, 0x5f, 0x44,
    0xa8, 0x12, 0x63, 0x0d, 0x8c, 0xfc, 0x59, 0xba, 0x2e, 0x46, 0xf3, 0x03, 0xa3, 0x5c, 0x61, 0xb0,
    0x7b, 0xae, 0xeb, 0xdd, 0x1d, 0x6a, 0x89, 0x68, 0xd8, 0x63, 0xc5, 0x2c, 0x8f, 0x0f, 0x16, 0x87,
    0xa6, 0x6c, 0xa2, 0x1d, 0x30, 0xab, 0xd1, 0x70, 0xa9, 0x0e, 0xe0, 0x04, 0x62, 0x05, 0x42, 0xda,
    0xd1, 0xdc, 0x9c, 0x6b, 0x8d, 0x44, 0x42, 0x18, 0x72, 0x36, 0xad, 0x42, 0x37, 0x41, 0x5f, 0x62,
    0xe5, 0xa4, 0x6d, 0x8f, 0xa4, 0xf1, 0xc0, 0xa0, 0x81, 0x57, 0x20, 0x5e, 0x89, 0x5a, 0x55, 0x4d,
    0x6c, 0x9b, 0xb4, 0xc8, 0xae, 0x57, 0x0e, 0x29, 0xe2, 0xbe, 0x52, 0x42, 0x0c, 0xbb, 0x12, 0x16,
    0x2b, 0x45, 0x80, 0x40, 0x2c, 0xf2, 0x4f, 0xf4, 0xdc, 0x2d, 0x63, 0x10, 0xd7, 0xb5, 0x1b, 0x72,
    0xc1, 0x16, 0x3c, 0xe9, 0x6e, 0xe4, 0x91, 0x75, 0x93, 0x8c, 0xbd, 0xfc, 0x05, 0xa7, 0x42, 0x24,
    0x20, 0xf6, 0x38, 0x58, 0x9f, 0x93, 0x08, 0x08, 0xcc, 0xd0, 0xc4, 0x66, 0xec, 0x04, 0xc8, 0x8e,
    0x73, 0x07, 0x45, 0x17, 0x49, 0x95, 0x7d, 0x1d, 0x24, 0x89, 0x11, 0x00, 0xa8, 0xc4, 0xb8, 0xa2,
    0x64, 0xb2, 0xfc, 0x53, 0xc1, 0x2c, 0x0d, 0xc6, 0x15, 0xa6, 0x41, 0xe6, 0x97, 0xe4, 0x39, 0x19,
    0x23, 0xbd, 0xc9, 0xbf, 0x02, 0xd0, 0xba, 0xe0, 0xb5, 0x58, 0xc7, 0x14, 0x0f, 0x44, 0xc7, 0xc1,
    0xbb, 0x25, 0x1c, 0xf1, 0xd5, 0x81, 0x68, 0x26, 0xac, 0x3a, 0x27, 0x46, 0xda, 0xa3, 0x92, 0x77,
    0x80, 0x61, 0xf5, 0x31, 0x34, 0xf0, 0x01, 0x4d, 0xe7, 0xae, 0x12, 0x6f, 0x85, 0xda, 0x1a, 0x64,
    0xf2, 0x3c, 0x97, 0x8c, 0xf1, 0x14, 0x45, 0xa7, 0xd2, 0x69, 0x46, 0x93, 0xc7, 0xf0, 0xc4, 0x0c,
    0xd8, 0xb8, 0xc1, 0x98, 0x48, 0x88, 0x09, 0x6e, 0x50, 0x20, 0x45, 0x19, 0xb4, 0x96, 0x4b, 0x35,
    0x45, 0x46, 0xa6, 0xa5, 0x25, 0xa0, 0x41, 0xae, 0x5d, 0x71, 0x5f, 0xc6, 0xde, 0x78, 0x42, 0x08,
    0x0a, 0x42, 0x40, 0xf6, 0xb8, 0x92, 0xe4, 0x51, 0x70, 0xb9, 0x3f, 0xd4, 0x55, 0x50, 0x0c, 0xa1,
    0x54, 0x52, 0x74, 0xec, 0x3f, 0x22, 0x7b, 0x60, 0x43, 0x49, 0xb6, 0xf0, 0x13, 0x79, 0x51, 0xdc,
    0x50, 0xb3, 0xc1, 0xa3, 0xc3, 0x35, 0xd7, 0xd3, 0x49, 0xa6, 0xb0, 0xa1, 0x04, 0x4c, 0xc4, 0xb3,
    0xb0, 0x89, 0x48, 0x0c, 0x34, 0xc9, 0xea, 0xce, 0x09, 0xb1, 0x8d, 0xaa, 0x22, 0xbf, 0x18, 0x9a,
    0x63, 0x90, 0x88, 0x84, 0x92, 0x04, 0x80, 0xcb, 0xda, 0x1b, 0x27, 0x9d, 0x57, 0x8a, 0x6d, 0x38,
    0xa1, 0xd5, 0xa8, 0x52, 0xa1, 0x40, 0xf6, 0x90, 0x13, 0x48, 0xe9, 0x75, 0x85, 0xb8, 0xe8, 0x50,
    0x62, 0x8a, 0x5e, 0x98, 0xaa, 0xdd, 0x9f, 0x10, 0xcf, 0x08, 0xa9, 0x96, 0x1a, 0x1e, 0x1b, 0xfc,
    0x73, 0x03, 0x67, 0xb0, 0x22, 0xde, 0xed, 0x26, 0x64, 0x56, 0x7f, 0x4d, 0x57, 0x0a, 0xe5, 0x10,
    0x82, 0x39, 0xd7, 0x89, 0x48, 0x7d, 0xe0, 0x5c, 0xfb, 0x66, 0x88, 0x00, 0xe2, 0x97, 0x40, 0x45,
    0x61, 0xf4, 0x9c, 0xed, 0x26, 0xc7, 0xd0, 0x6a, 0x1d, 0x21, 0x92, 0x3a, 0xae, 0x6c, 0x24, 0x82,
    0x64, 0xc0, 0x3b, 0x29, 0xc6, 0x49, 0x4c, 0xd9, 0x52, 0xb4, 0x60, 0xd6, 0xf9, 0x39, 0xf7, 0x0b,
    0x08, 0x39, 0x9b, 0x39, 0x3f, 0x37, 0x66, 0x82, 0x0e, 0xd2, 0x1b, 0xc0, 0xb8, 0x10, 0x8e, 0x08,
    0x5d, 0xa0, 0x7d, 0xe4, 0x3c, 0xb5, 0xc8, 0x84, 0xcc, 0xa5, 0xf1, 0xa8, 0x49, 0xfa, 0xc7, 0xc8,
    0x73, 0x92, 0x5d, 0xfb, 0x81, 0xd7, 0x32, 0x12, 0xd8, 0x93, 0x80, 0xd2, 0x91, 0xdc, 0x0b, 0xcd,
    0x0c, 0x24, 0x20, 0x40, 0xcc, 0x16, 0x0c, 0xe6, 0xff, 0x68, 0x9b, 0x60, 0x83, 0x10, 0x09, 0x72,
    0x3b, 0xd8, 0xe0, 0x00, 0x0f, 0x6c, 0x58, 0xcf, 0xb5, 0x5c, 0x65, 0xb6, 0x72, 0x48, 0x3c, 0xa0,
    0x66, 0xe8, 0x18, 0x34, 0x71, 0xc5, 0x79, 0x11, 0x74, 0x19, 0x93, 0xe8, 0xae, 0x89, 0x43, 0x2e,
    0xa4, 0xd0, 0x45, 0xe1, 0xa9, 0x41, 0xca, 0xe4, 0xbe, 0xc1, 0xf4, 0xba, 0x16, 0x13, 0x2c, 0x50,
    0x18, 0xa8, 0x32, 0x4c, 0x56, 0xc8, 0x1d, 0x41, 0x8a, 0x61, 0x70, 0x99, 0xc3, 0x0e, 0x78, 0xe8,
    0x91, 0x34, 0x4a, 0x8a, 0x82, 0x6d, 0xe7, 0x25, 0x98, 0x17, 0x99, 0x84, 0xe2, 0xdb, 0x48, 0xd1,
    0xe0, 0xea, 0x98, 0xe0, 0x8c, 0x53, 0x6e, 0x59, 0xae, 0xa5, 0xac, 0x89, 0xcc, 0x0c, 0xa5, 0xc6,
    0x50, 0x83, 0x74, 0x5a, 0x7b, 0xa2, 0xe4, 0x03, 0xab, 0xe3, 0x67, 0xfb, 0xfc, 0x13, 0xe0, 0xa8,
    0xcb, 0x26, 0x2e, 0x8c, 0x5e, 0x71, 0xf5, 0xb8, 0xed, 0x96, 0x9c, 0x1f, 0x6b, 0x0b, 0x26, 0x4c,
    0x77, 0xe9, 0x3c, 0x4f, 0x28, 0xf2, 0xcb, 0x02, 0x9d, 0xc4, 0xb5, 0xec, 0x7e, 0x52, 0x6c, 0xec,
    0x67, 0x85, 0xb2, 0xb8, 0xc4, 0x03, 0x3c, 0x63, 0x99, 0x29, 0x31, 0x32, 0x23, 0x25, 0x0e, 0xd1,
    0xbc, 0x2b, 0x20, 0xa5, 0x60, 0xf0, 0x52, 0xf1, 0xfa, 0x44, 0xe6, 0xe1, 0xcc, 0x84, 0x4c, 0xbf,
    0x24, 0x04, 0x54, 0xe3, 0x3f, 0xf9, 0x5c, 0xac, 0xb1, 0xee, 0x96, 0x4d, 0xde, 0x0f, 0x4b, 0xf0,
    0x25, 0x19, 0x6f, 0x4c, 0x81, 0xbe, 0x98, 0xa7, 0x3e, 0x72, 0x1d, 0xd3, 0x57, 0x9b, 0x43, 0xa7,
    0xa3, 0xa8, 0xc9, 0x10, 0x1f, 0x93, 0x10, 0x73, 0x42, 0x6c, 0x03, 0x48, 0x04, 0x4d, 0xa1, 0xc5,
    0xa0, 0x01, 0x34, 0x9d, 0x95, 0x64, 0xac, 0xd9, 0x21, 0x5d, 0x7b, 0x82, 0x29, 0xb1, 0xfa, 0x04,
    0x77, 0xee, 0x91, 0xe1, 0xaf, 0x48, 0x6b, 0x49, 0x81, 0x4e, 0x12, 0xd9, 0x72, 0x43, 0x90, 0x7c,
    0x61, 0x9d, 0xd6, 0xd4, 0x93, 0x24, 0xbf, 0x79, 0xcf, 0x3e, 0xff, 0x24, 0xe1, 0x35, 0x1f, 0xf2,
    0x5b, 0xf8, 0x65, 0x4c, 0x65, 0xfb, 0x6d, 0xe2, 0x59, 0xb9, 0x8f, 0x9a, 0x49, 0xca, 0xe8, 0x66,
    0xc1, 0x37, 0x00, 0x1f, 0xd5, 0xba, 0xf5, 0xc4, 0xeb, 0xad, 0xe4, 0xfc, 0x5a, 0xac, 0x6a, 0xf6,
    0x51, 0xc6, 0x7c, 0x22, 0xce, 0xe6, 0x3e, 0x35, 0x4a, 0x10, 0x1c, 0x01, 0xa1, 0x14, 0x82, 0x88,
    0x57, 0xc8, 0x27, 0xe3, 0xd9, 0x39, 0x33, 0xd3, 0x06, 0x18, 0x6a, 0xfc, 0x45, 0x9b, 0xf2, 0x50,
    0x0a, 0x2f, 0x77, 0x32, 0x66, 0x1b, 0x6a, 0xa2, 0x75, 0xd0, 0xb4, 0xa4, 0xaa, 0xc9, 0xf5, 0x11,
    0xdf, 0x9b, 0x7a, 0x41, 0x57, 0x85, 0xb2, 0xb8, 0x00, 0x8a, 0x02, 0x88, 0x69, 0x62, 0x32, 0x40,
    0x2a, 0xa8, 0x34, 0x61, 0x32, 0x5c, 0xca, 0xa5, 0x66, 0x70, 0xaf, 0x66, 0xac, 0x62, 0x02, 0x3b,
    0x9c, 0x39, 0x58, 0x04, 0x4d, 0x32, 0x77, 0xea, 0x13, 0xb7, 0x36, 0xc7, 0x94, 0x87, 0xb2, 0x1b,
    0xa4, 0x3c, 0x95, 0xc2, 0x0a, 0xf2, 0x7b, 0x68, 0x78, 0x9f, 0xc0, 0x70, 0xcc, 0xde, 0x98, 0xcd,
    0x88, 0x60, 0x8f, 0x09, 0xa8, 0xe4, 0xd8, 0x5b, 0x10, 0x82, 0x39, 0x95, 0xc5, 0x33, 0x46, 0x6b,
    0x13, 0xf3, 0x3e, 0xa1, 0x58, 0x45, 0xd2, 0x0a, 0x70, 0x91, 0xba, 0x95, 0x1c, 0x95, 0x14, 0xf2,
    0xdc, 0xf3, 0x1b, 0x6f, 0x4c, 0x84, 0xdd, 0x64, 0x5b, 0xdb, 0xa0, 0x99, 0x98, 0x20, 0x65, 0x3d,
    0x71, 0x2a, 0x27, 0x59, 0xd3, 0x13, 0x12, 0x43, 0xef, 0x88, 0xd1, 0x69, 0x99, 0x83, 0x4a, 0x72,
    0x1a, 0xee, 0x50, 0x94, 0x4f, 0x98, 0x05, 0x25, 0x00, 0x2d, 0xe6, 0x49, 0xd5, 0x49, 0x52, 0x8b,
    0xfb, 0x15, 0xb5, 0x0c, 0xe4, 0x33, 0x40, 0xd9, 0x3a, 0xb9, 0x3e, 0x09, 0xac, 0x09, 0x39, 0x3b,
    0x12, 0xa0, 0x0f, 0x18, 0x6b, 0x10, 0xfe, 0xa9, 0xeb, 0x20, 0x0a, 0x26, 0x70, 0x30, 0xbb, 0x69,
    0x34, 0x2e, 0x37, 0xd3, 0xca, 0xfb, 0x2d, 0x34, 0x6a, 0x53, 0x32, 0x84, 0xd6, 0x5e, 0x28, 0xe9,
    0xfc, 0x63, 0x66, 0xef, 0x56, 0x28, 0x98, 0xd1, 0x28, 0xf6, 0x9f, 0x78, 0x62, 0xf8, 0x07, 0xab,
    0x74, 0x49, 0xe8, 0x6c, 0xc5, 0xb9, 0xd4, 0xb3, 0x21, 0x88, 0xc9, 0x5c, 0xbc, 0x6d, 0x98, 0x8c,
    0x73, 0xf1, 0xd7, 0x2d, 0x0d, 0x31, 0x7b, 0x01, 0x63, 0xcf, 0xd6, 0x27, 0x01, 0x76, 0x8e, 0x2b,
    0x81, 0xf4, 0x21, 0x75, 0x41, 0xaa, 0x64, 0xcc, 0x04, 0xc1, 0xa4, 0x81, 0xad, 0x81, 0xb2, 0x65,
    0xd9, 0xd8, 0x0f, 0xd5, 0x1b, 0x26, 0x24, 0xe8, 0xbf, 0xa1, 0x1a, 0xaa, 0xd3, 0x73, 0xd9, 0xf1,
    0xc1, 0x9e, 0x19, 0x13, 0x8a, 0x16, 0xe5, 0xb9, 0x45, 0xde, 0xc7, 0x8a, 0x20, 0x99, 0xd0, 0xa3,
    0xa3, 0x3a, 0x31, 0xde, 0x5d, 0x41, 0x10, 0xfa, 0x62, 0x2c, 0xed, 0x65, 0xa6, 0x80, 0xb6, 0x22,
    0xfe, 0x63, 0x2d, 0x58, 0x88, 0xe9, 0x13, 0xf7, 0x24, 0xc5, 0x17, 0x0a, 0xd1, 0x3c, 0x9e, 0x06,
    0xce, 0x77, 0xb0, 0x27, 0x1e, 0xaa, 0x15, 0x5e, 0x7d, 0x03, 0x17, 0xcf, 0xa4, 0x04, 0x1c, 0xa9,
    0xd0, 0x4a, 0x38, 0x7f, 0x93, 0x1d, 0xe7, 0x98, 0xd6, 0x32, 0x7b, 0x0f, 0x4f, 0x9b, 0x9c, 0x85,
    0xa4, 0x5f, 0x25, 0x0f, 0xa7, 0x8b, 0x74, 0x6b, 0xcd, 0xa6, 0xb7, 0x64, 0x7f, 0x12, 0xb4, 0x5c,
    0x90, 0x20, 0x05, 0x0b, 0xb0, 0xa8, 0x40, 0x44, 0x04, 0x5c, 0x33, 0xfd, 0x03, 0xae, 0xc5, 0x6f,
    0xc9, 0x87, 0x55, 0x58, 0x10, 0x17, 0x3a, 0xb2, 0x29, 0x49, 0x70, 0xcc, 0x4d, 0x2a, 0xdd, 0xb2,
    0x19, 0xf2, 0x24, 0xb0, 0x21, 0xa9, 0x3d, 0x12, 0x46, 0x98, 0x35, 0x49, 0xd2, 0x9c, 0x5a, 0xb3,
    0x76, 0x21, 0xa5, 0x10, 0x9f, 0xd4, 0xf5, 0x85, 0x40, 0x53, 0x04, 0xd9, 0xdb, 0x71, 0xef, 0x25,
    0x69, 0x63, 0xf8, 0xe1, 0x2b, 0xc3, 0x5f, 0x56, 0x27, 0x97, 0x66, 0x61, 0x62, 0x10, 0xde, 0xc9,
    0xd6, 0xe9, 0xea, 0x2d, 0xf3, 0x31, 0x58, 0x22, 0x6f, 0x59, 0xc2, 0x53, 0xb0, 0x77, 0xb2, 0x20,
    0xbc, 0xbc, 0x05, 0x97, 0xa5, 0x10, 0x9e, 0x2b, 0x42, 0x7e, 0x1c, 0x63, 0x77, 0x33, 0xfb, 0x32,
    0xab, 0xe4, 0x13, 0x1b, 0x0a, 0xaa, 0x72, 0x5f, 0x30, 0x87, 0x69, 0x37, 0xb4, 0x13, 0xce, 0xde,
    0x60, 0x2c, 0xf0, 0xf5, 0x9f, 0x9c, 0x4e, 0xc5, 0xa6, 0x10, 0x3f, 0x99, 0xc2, 0x3c, 0x96, 0xa8,
    0x25, 0xc3, 0x72, 0x92, 0xf7, 0x04, 0x64, 0x0e, 0x91, 0x4e, 0x42, 0x5c, 0xbd, 0x54, 0xdd, 0x43,
    0x55, 0x9f, 0x6e, 0x25, 0x62, 0x72, 0x2e, 0xe0, 0x8f, 0x7b, 0xf4, 0xd9, 0xcf, 0x31, 0x11, 0x8b,
    0xd3, 0xd0, 0xce, 0x69, 0xe0, 0x51, 0x03, 0xe3, 0x68, 0xb9, 0x86, 0x63, 0xf5, 0x08, 0xca, 0x88,
    0x05, 0x2e, 0x15, 0x74, 0xf1, 0x77, 0x19, 0x3f, 0xca, 0xa4, 0xd4, 0x2f, 0xdb, 0x5f, 0xe6, 0x70,
    0xeb, 0x7a, 0x6c, 0x54, 0x8a, 0xd4, 0xb4, 0x99, 0x3f, 0x41, 0x93, 0xd1, 0x12, 0x08, 0x1e, 0x82,
    0x16, 0xbb, 0x6e, 0x92, 0xf0, 0x17, 0xfe, 0xd4, 0xad, 0xfc, 0x21, 0xb5, 0xc7, 0x8d, 0x13, 0xbc,
    0x0f, 0x21, 0xaa, 0xc0, 0x9c, 0xdc, 0x15, 0x80, 0xf7, 0x07, 0x12, 0xda, 0x6a, 0x25, 0x89, 0x22,
    0xbe, 0x47, 0x5d, 0x8a, 0xa9, 0xa0, 0x51, 0xcd, 0x52, 0xb0, 0x06, 0xc4, 0xbe, 0x36, 0xe2, 0xc4,
    0x5f, 0x61, 0xed, 0x3b, 0x39, 0x1a, 0xa0, 0x69, 0xc9, 0x06, 0x4b, 0x13, 0x1d, 0x2d, 0xe7, 0x8f,
    0x0f, 0x3e, 0x61, 0x74, 0x0d, 0xc3, 0x6f, 0xd1, 0xe9, 0x09, 0x10, 0xea, 0x0e, 0x3c, 0xb7, 0x56,
    0x30, 0x1a, 0x09, 0x04, 0x86, 0xb9, 0xe4, 0x29, 0x7e, 0xf1, 0x2c, 0xb4, 0x91, 0x4e, 0xb6, 0x27,
    0x19, 0x41, 0xd9, 0xa6, 0x18, 0xb1, 0x52, 0x22, 0x53, 0xe1, 0x62, 0xa5, 0x5a, 0x07, 0x0b, 0x5b,
    0xe0, 0x4a, 0xae, 0x26, 0xb5, 0x9a, 0x84, 0xc7, 0xd4, 0xad, 0xa5, 0x2e, 0xb7, 0xea, 0xd2, 0x01,
    0x30, 0x9d, 0x3c, 0x18, 0x71, 0x0d, 0x56, 0xcf, 0xb4, 0xaa, 0x39, 0x3a, 0x6b, 0x78, 0x9a, 0x58,
    0xc1, 0x74, 0xcb, 0xcd, 0x75, 0x5a, 0x40, 0x72, 0x13, 0xa7, 0x33, 0x09, 0xd9, 0x3a, 0x24, 0x3e,
    0xc4, 0x50, 0x9c, 0x35, 0xc2, 0x26, 0xe3, 0x36, 0xb7, 0x92, 0x64, 0x3c, 0x03, 0xe8, 0xfe, 0x99,
    0x1f, 0x54, 0xb8, 0xf4, 0xe5, 0xcf, 0x3c, 0x23, 0xc2, 0x27, 0x84, 0xc6, 0xad, 0x8b, 0xb8, 0x19,
    0x1b, 0xbc, 0xac, 0x09, 0xa1, 0x98, 0x39, 0xd3, 0x58, 0xd6, 0xca, 0x4a, 0xb8, 0x10, 0x25, 0x8d,
    0xde, 0xae, 0x53, 0x77, 0x9d, 0xa2, 0xe3, 0x18, 0x41, 0xac, 0x39, 0xf6, 0x9c, 0x0a, 0x11, 0x13,
    0xe2, 0xb7, 0x4e, 0x35, 0xd0, 0x3a, 0x9b, 0xda, 0x16, 0x50, 0x79, 0xe9, 0x73, 0xed, 0xde, 0x49,
    0x3a, 0x88, 0x80, 0x03, 0x5a, 0x19, 0xeb, 0x0f, 0x3a, 0x4e, 0x50, 0x96, 0x20, 0xf4, 0x84, 0x68,
    0xba, 0xb2, 0x90, 0xe0, 0xac, 0x2c, 0x83, 0xc6, 0x73, 0x02, 0x85, 0xca, 0x9a, 0x55, 0x91, 0x0a,
    0x55, 0x2f, 0xc2, 0x94, 0x14, 0x2b, 0x56, 0xa0, 0x9c, 0xc9, 0x3b, 0x4b, 0x41, 0x0c, 0xd4, 0xad,
    0x25, 0x38, 0x3f, 0xb2, 0x8f, 0x2a, 0x27, 0xa3, 0x81, 0x64, 0x64, 0x59, 0x1d, 0xd6, 0xc9, 0xa2,
    0x06, 0xab, 0x03, 0xc4, 0x5d, 0x58, 0x60, 0xe1, 0x55, 0x12, 0x18, 0x33, 0x97, 0xb9, 0xd5, 0x4f,
    0x59, 0x8f, 0x04, 0xb1, 0x55, 0x09, 0x29, 0x09, 0x40, 0x28, 0xdb, 0x94, 0x6d, 0x25, 0x9c, 0x52,
    0x85, 0x44, 0xfc, 0xd8, 0x44, 0xc0, 0xa7, 0x45, 0x15, 0x9d, 0xac, 0x97, 0x31, 0x57, 0x53, 0x8a,
    0xd6, 0x00, 0x54, 0x63, 0xff, 0x4b, 0xc4, 0x76, 0xdc, 0x67, 0x87, 0xe0, 0x5d, 0x70, 0x65, 0x4e,
    0xe0, 0x57, 0x9d, 0x48, 0x0a, 0x9e, 0x2a, 0xbb, 0x63, 0xbd, 0x20, 0x3e, 0xbb, 0x52, 0xa4, 0x7b,
    0xd9, 0x6b, 0x0b, 0x98, 0x6a, 0x52, 0xf8, 0x20, 0xf9, 0x09, 0xc6, 0x23, 0xa5, 0x99, 0x3a, 0xaf,
    0xd4, 0xef, 0x63, 0xd2, 0x8e, 0xc0, 0x6b, 0x2e, 0x96, 0x06, 0x3f, 0x11, 0xcf, 0xa7, 0x50, 0x51,
    0x4f, 0x55, 0x26, 0xf1, 0x30, 0xe3, 0xc8, 0x51, 0x60, 0xcf, 0xad, 0xd6, 0x91, 0x5b, 0x27, 0x60,
    0x3b, 0x89, 0x62, 0xe5, 0x6d, 0x2b, 0xa9, 0x12, 0x69, 0x01, 0xbc, 0xc3, 0x51, 0x35, 0x29, 0xea,
    0x2e, 0x33, 0x58, 0xc7, 0x82, 0x65, 0xe3, 0xe4, 0x8b, 0x5a, 0x93, 0x85, 0x1a, 0xc5, 0xb0, 0xd4,
    0x86, 0x14, 0xdd, 0x27, 0x7e, 0xd7, 0x57, 0xdf, 0x0a, 0xbd, 0x0a, 0x11, 0x1a, 0x28, 0x92, 0x7a,
    0x4d, 0xd3, 0x97, 0xa8, 0x10, 0x12, 0x7a, 0xac, 0xda, 0x27, 0x88, 0x65, 0xd7, 0x0e, 0x20, 0xa3,
    0x52, 0xec, 0x43, 0x46, 0xd8, 0x52, 0x70, 0x24, 0x17, 0x3e, 0xb2, 0x6e, 0xbd, 0x1e, 0xf6, 0xcc,
    0x2a, 0x90, 0xb2, 0x2c, 0xb5, 0x24, 0x91, 0x8f, 0x87, 0x45, 0x1e, 0xb9, 0x43, 0x91, 0x82, 0x78,
    0xa8, 0x27, 0xb4, 0x68, 0x14, 0xdc, 0x6d, 0xf8, 0x6a, 0xf6, 0x07, 0x42, 0x4c, 0x4c, 0x7d, 0x13,
    0x61, 0x72, 0x95, 0xc7, 0x62, 0xa4, 0x92, 0x43, 0x81, 0xe5, 0x6b, 0x33, 0x75, 0xfc, 0x4b, 0x41,
    0xca, 0x28, 0x12, 0x08, 0x95, 0xdc, 0xa6, 0xb4, 0x7c, 0xdb, 0x53, 0x00, 0xa6, 0xb8, 0x55, 0xdf,
    0x76, 0x48, 0x74, 0x8a, 0x61, 0x53, 0xf6, 0x5f, 0x49, 0xb1, 0xa6, 0x94, 0x05, 0xef, 0x5d, 0x29,
    0xd1, 0x39, 0x57, 0x73, 0x4f, 0x12, 0x0f, 0xd6, 0x52, 0xeb, 0xf3, 0xcf, 0x5d, 0xbf, 0x31, 0xd0,
    0x2d, 0x1a, 0x4f, 0x6a, 0xad, 0x52, 0x84, 0x67, 0x67, 0x84, 0xe5, 0x3c, 0x92, 0xb9, 0xa4, 0x5a,
    0x2c, 0x04, 0x55, 0x70, 0xc5, 0xd6, 0x27, 0x29, 0xd4, 0x64, 0xf0, 0xad, 0x59, 0xb7, 0x3a, 0xf4,
    0xa7, 0xd7, 0xd6, 0xf9, 0x9a, 0x9d, 0x62, 0x21, 0xac, 0x41, 0xec, 0x22, 0x29, 0x4a, 0xd4, 0xd9,
    0x37, 0x5f, 0x4d, 0x07, 0x4e, 0xa5, 0x8c, 0x35, 0x15, 0x1f, 0x9c, 0x60, 0x47, 0x75, 0xec, 0x25,
    0x30, 0x42, 0xb1, 0x1f, 0x46, 0x5f, 0x47, 0xd6, 0xff, 0x6a, 0xcd, 0xc0, 0xd4, 0xb6, 0xb0, 0xf4,
    0x48, 0xdc, 0x13, 0xa5, 0x09, 0xdf, 0xaf, 0x7a, 0xc9, 0x21, 0x4d, 0x52, 0x8e, 0x69, 0xe0, 0x98,
    0x14, 0xc5, 0x95, 0x59, 0x72, 0xca, 0x1a, 0x65, 0x13, 0x71, 0x4b, 0xe2, 0x0f, 0x0a, 0x8f, 0xc1,
    0xf1, 0x20, 0x62, 0x18, 0x2a, 0x14, 0x80, 0xb2, 0x94, 0xba, 0xd5, 0x15, 0xc2, 0x09, 0xa4, 0xe8,
    0x27, 0x81, 0xcd, 0x99, 0x87, 0x02, 0x39, 0x76, 0x0c, 0x94, 0xb9, 0xe7, 0x1b, 0x7c, 0x93, 0x27,
    0x21, 0xad, 0x2a, 0x06, 0xa8, 0x94, 0x7a, 0x5b, 0xed, 0xeb, 0x91, 0x58, 0x70, 0x67, 0x05, 0x94,
    0xf0, 0xa6, 0x6f, 0x59, 0x1a, 0xc9, 0x9a, 0xb1, 0xc5, 0xa0, 0x27, 0xbc, 0x61, 0x8a, 0x1a, 0x27,
    0x86, 0xd3, 0xf8, 0xad, 0x53, 0x5a, 0x02, 0x82, 0xb3, 0xf8, 0x2e, 0x29, 0x54, 0x5c, 0x96, 0x3c,
    0xc4, 0x2d, 0x76, 0xb2, 0xa8, 0x08, 0x66, 0xdb, 0xdc, 0xb4, 0x4f, 0xad, 0x41, 0x5c, 0xec, 0x22,
    0xb9, 0x70, 0x74, 0x91, 0x22, 0xc9, 0xb6, 0xf3, 0x21, 0x10, 0x43, 0x4e, 0xee, 0x5a, 0x27, 0x63,
    0x7a, 0xa0, 0xb2, 0x29, 0xc5, 0xb1, 0x38, 0x62, 0x2e, 0xd4, 0x45, 0xa6, 0xa3, 0xea, 0x94, 0x4d,
    0x12, 0xf6, 0x9f, 0x44, 0xbd, 0x40, 0x71, 0xec, 0xa7, 0x6c, 0x78, 0x87, 0x49, 0x4c, 0x0e, 0xb1,
    0x13, 0xd5, 0x41, 0xbf, 0xdf, 0x76, 0x12, 0x0d, 0x0d, 0xae, 0xce, 0xb6, 0x30, 0x4b, 0x17, 0x27,
    0x14, 0xba, 0x84, 0x0a, 0x6a, 0x5b, 0x16, 0xf7, 0xc4, 0x02, 0x25, 0xaa, 0xf9, 0xe5, 0x4f, 0xb1,
    0xfa, 0xf2, 0x60, 0xb8, 0xc8, 0x44, 0x84, 0x98, 0xc7, 0x36, 0x13, 0xd2, 0x22, 0xa8, 0xb6, 0xe7,
    0x8d, 0xb3, 0x30, 0x33, 0x13, 0xe2, 0xc7, 0x82, 0x94, 0x11, 0x2b, 0xa6, 0x1a, 0xfd, 0x22, 0xe7,
    0xb1, 0x20, 0x14, 0x07, 0x6f, 0x25, 0xa0, 0xdf, 0x35, 0x72, 0x4b, 0xbc, 0x66, 0x76, 0x3a, 0x25,
    0x23, 0x95, 0x8b, 0x9b, 0x88, 0xd0, 0x82, 0x81, 0x41, 0x9b, 0xfc, 0x86, 0x7e, 0xdc, 0x4c, 0xf2,
    0x2d, 0x7e, 0x12, 0xf5, 0xc1, 0xeb, 0xc4, 0xd4, 0x9e, 0x64, 0x2a, 0xe4, 0x6c, 0x3b, 0xd5, 0x0c,
    0x13, 0x42, 0x4b, 0xfe, 0xba, 0xcd, 0x41, 0xfc, 0xc3, 0x42, 0x10, 0xdc, 0x27, 0xc5, 0x45, 0x16,
    0x88, 0x54, 0xec, 0xa4, 0x62, 0xb7, 0x2b, 0x4a, 0x6d, 0xa9, 0x89, 0x29, 0x07, 0xe0, 0x8c, 0xcc,
    0x6b, 0x52, 0x5b, 0x50, 0xfe, 0xa9, 0xb6, 0xc6, 0x0e, 0x9b, 0xb3, 0x97, 0xda, 0x0a, 0x2d, 0x0c,
    0x53, 0x64, 0x4e, 0xb8, 0x23, 0x90, 0x9d, 0xe2, 0xab, 0xa9, 0x98, 0x9f, 0xa3, 0xc7, 0xb2, 0x24,
    0x7c, 0xae, 0xbf, 0x48, 0xc6, 0x9b, 0x1a, 0x9e, 0xa0, 0xff, 0xa8, 0x3a, 0xd4, 0xe6, 0xe5, 0x03,
    0x00, 0x49, 0x72, 0x6f, 0x14, 0x66, 0x90, 0x67, 0x85, 0x8e, 0x4e, 0x85, 0x78, 0x1a, 0x4b, 0xec,
    0xae, 0x32, 0x1a, 0x96, 0x03, 0xad, 0x34, 0x26, 0x99, 0xa9, 0xf8, 0x57, 0x68, 0xf4, 0x45, 0x73,
    0x19, 0x24, 0xad, 0xe3, 0x8f, 0x72, 0x18, 0x55, 0x98, 0x7d, 0x9c, 0xd4, 0xa1, 0xfd, 0xb3, 0x61,
    0x5a, 0x22, 0xe3, 0x4f, 0x15, 0xd6, 0x16, 0xa8, 0xa4, 0x6f, 0xa8, 0x49, 0xaa, 0xf4, 0x19, 0x4a,
    0x8a, 0x51, 0xba, 0x58, 0xb7, 0xea, 0x26, 0x19, 0x12, 0x53, 0x30, 0x75, 0xd3, 0xe7, 0x51, 0xb5,
    0xce, 0xde, 0xdc, 0x64, 0x7f, 0x9b, 0x80, 0x68, 0x3b, 0x3d, 0x0c, 0x09, 0xfa, 0xf2, 0xcd, 0x04,
    0xac, 0x20, 0xfc, 0x63, 0x4d, 0xdd, 0xd1, 0x2c, 0xf4, 0xb5, 0xb5, 0x09, 0x1b, 0x24, 0xb9, 0x55,
    0x03, 0x24, 0xea, 0x97, 0x86, 0xed, 0x0e, 0x73, 0x49, 0x3e, 0x3a, 0x61, 0xa6, 0xad, 0x7d, 0xec,
    0xc0, 0xcd, 0x0e, 0x1c, 0x2a, 0x30, 0x89, 0x73, 0xa5, 0x47, 0xed, 0xd9, 0xb0, 0x54, 0x53, 0xe2,
    0x38, 0x85, 0xba, 0x26, 0xef, 0x5c, 0xaa, 0xc5, 0xf6, 0xe2, 0x78, 0x33, 0x56, 0x27, 0xbe, 0x68,
    0x3a, 0x46, 0x26, 0xa7, 0x43, 0x76, 0xb7, 0xac, 0x34, 0x9f, 0x5b, 0x60, 0x7c, 0xcc, 0xd8, 0xfc,
    0xd3, 0x22, 0x60, 0xea, 0x42, 0x0e, 0xac, 0x2d, 0xef, 0xb2, 0x53, 0xe8, 0x07, 0xc4, 0xad, 0xcc,
    0xb1, 0xdc, 0x28, 0xad, 0x2d, 0x1d, 0x94, 0x60, 0x20, 0x37, 0xf9, 0xd9, 0xb1, 0x60, 0xd1, 0x0a,
    0xfb, 0x4b, 0xac, 0x8e, 0xc9, 0x52, 0x4b, 0xf9, 0x2d, 0xe6, 0xfe, 0x95, 0xf3, 0x59, 0x8b, 0xda,
    0xe1, 0xb6, 0xeb, 0x36, 0xa6, 0x62, 0xa6, 0xcd, 0xfd, 0x4f, 0x3a, 0x14, 0xfe, 0xe1, 0x45, 0x2d,
    0x3b, 0xca, 0x32, 0x4a, 0xe0, 0x66, 0x55, 0x2f, 0x91, 0x1a, 0x65, 0xf2, 0x56, 0x72, 0x9d, 0xd4,
    0x40, 0x35, 0xe5, 0xb5, 0x01, 0x0a, 0x44, 0x9b, 0xd2, 0x6f, 0xe0, 0xa6, 0x63, 0x11, 0x74, 0x90,
    0x2e, 0x1e, 0x9b, 0x52, 0xb9, 0x92, 0x20, 0x28, 0xe4, 0x37, 0x69, 0x95, 0x93, 0x4a, 0x80, 0x12,
    0x02, 0x56, 0x40, 0x56, 0xda, 0x75, 0x48, 0xe3, 0x97, 0xd5, 0x3b, 0x5a, 0xcd, 0x11, 0x04, 0xb5,
    0xbb, 0xdd, 0x52, 0x6e, 0xde, 0x19, 0x88, 0x3d, 0xa1, 0xdf, 0x47, 0x3a, 0xa4, 0xcd, 0x30, 0xcb,
    0x52, 0xd8, 0x60, 0x60, 0xe5, 0x65, 0xda, 0xf5, 0x52, 0xdb, 0x0f, 0xb0, 0x95, 0x64, 0x1b, 0x02,
    0x42, 0xaf, 0x6b, 0xd7, 0x1f, 0xaf, 0xa9, 0x3b, 0xb4, 0x5c, 0x80, 0x6c, 0xb6, 0x1c, 0x4b, 0xdd,
    0xce, 0xd6, 0xd0, 0x23, 0xa9, 0x5a, 0x0d, 0x0d, 0x6b, 0xc0, 0x7c, 0xfa, 0x16, 0x04, 0xa6, 0x56,
    0x8b, 0xcc, 0x18, 0x7d, 0x76, 0x65, 0x6c, 0x10, 0x31, 0xb6, 0xfd, 0x46, 0x28, 0x2e, 0x8c, 0x00,
    0xd0, 0x0e, 0x3c, 0xd3, 0x5c, 0xd0, 0x38, 0x16, 0x29, 0x4a, 0xd5, 0x9a, 0xcf, 0x10, 0x04, 0x68,
    0x99, 0xa6, 0x12, 0x5b, 0xce, 0x35, 0x26, 0xa9, 0xc6, 0x82, 0xbf, 0x08, 0x69, 0x7c, 0x6c, 0xde,
    0xb0, 0x33, 0x43, 0xef, 0xc2, 0x1f, 0x33, 0x7b, 0x95, 0xf6, 0x13, 0x09, 0xfd, 0x4e, 0x43, 0x79,
    0x82, 0x65, 0x77, 0x53, 0x4c, 0x74, 0x74, 0x1b, 0x69, 0x97, 0x49, 0xdd, 0x14, 0xa6, 0xfb, 0x98,
    0x49, 0x36, 0xa5, 0xab, 0x67, 0xb3, 0x7e, 0x58, 0x14, 0x1a, 0xbc, 0x6c, 0x6f, 0x25, 0x48, 0xe3,
    0xb7, 0x90, 0x34, 0x79, 0xf6, 0x3f, 0x45, 0xec, 0x30, 0x39, 0xc1, 0x9e, 0x27, 0xe1, 0x5e, 0xfa,
    0xe8, 0x52, 0x53, 0x6a, 0xfa, 0xaf, 0x63, 0x3f, 0x25, 0x3b, 0x28, 0xdf, 0x3a, 0x1d, 0xf6, 0x2e,
    0xae, 0x25, 0x32, 0x78, 0x3b, 0x60, 0x47, 0x9f, 0x64, 0x51, 0x97, 0x91, 0xd9, 0xd8, 0x67, 0x71,
    0x42, 0x71, 0x16, 0x7c, 0x63, 0xca, 0x3d, 0x26, 0x7d, 0xbd, 0x93, 0xe4, 0x56, 0xf8, 0xb7, 0x16,
    0xb1, 0x71, 0x02, 0x80, 0xb5, 0xba, 0x4d, 0x3e, 0x36, 0x89, 0xd4, 0xaf, 0x9b, 0x8e, 0x7c, 0x40,
    0x80, 0xbe, 0x85, 0xf5, 0xfd, 0x23, 0x09, 0x02, 0xcf, 0xed, 0x41, 0x36, 0xf3, 0x71, 0x5b, 0x30,
    0x3a, 0x75, 0x6c, 0x32, 0x0a, 0x96, 0xa9, 0xa7, 0xac, 0xb8, 0x4d, 0x4f, 0xd0, 0x90, 0xd5, 0x76,
    0x54, 0xa5, 0x60, 0xfd, 0xa4, 0x90, 0xd0, 0x20, 0x79, 0xe2, 0x90, 0x62, 0xa5, 0xd1, 0x27, 0xa3,
    0x3d, 0x9d, 0x43, 0x00, 0x25, 0xf4, 0x6c, 0xfa, 0x24, 0x80, 0x36, 0x69, 0xf9, 0xa9, 0xa0, 0xe9,
    0x44, 0x0f, 0xb2, 0x4b, 0xc7, 0x0c, 0xa4, 0x0a, 0x74, 0x4c, 0x0a, 0x1a, 0xcd, 0x5e, 0x72, 0xe5,
    0x84, 0x7f, 0x3e, 0xbf, 0xf2, 0xbc, 0x4a, 0xea, 0xde, 0xc6, 0xca, 0x7f, 0xba, 0x01, 0x2c, 0xf1,
    0x4f, 0xfb, 0x77, 0xb2, 0xce, 0x69, 0x7a, 0x98, 0x94, 0xe7, 0xe7, 0x2c, 0xa5, 0x2f, 0xe0, 0x7a,
    0x6e, 0x97, 0xcd, 0x9c, 0x64, 0x3d, 0x27, 0x09, 0x72, 0x0d, 0x10, 0xa1, 0xf6, 0x6f, 0x21, 0xf3,
    0x6b, 0x3d, 0xab, 0x5b, 0xc4, 0x1e, 0x1b, 0x77, 0x92, 0x17, 0xb4, 0x1a, 0x22, 0x6d, 0xa8, 0xb4,
    0x83, 0xa8, 0x60, 0x69, 0xd2, 0xa4, 0x4f, 0xb6, 0x6f, 0xb2, 0x1c, 0x95, 0x01, 0x17, 0xd0, 0x25,
    0x6e, 0x2f, 0x5d, 0x67, 0x97, 0x4e, 0xe0, 0xac, 0x55, 0xc5, 0x76, 0xae, 0xdb, 0x40, 0x71, 0xec,
    0x1e, 0x99, 0x94, 0x03, 0x10, 0x6c, 0xdf, 0xc4, 0x8d, 0x3d, 0x2d, 0x13, 0x93, 0x63, 0xc1, 0x43,
    0xa5, 0x22, 0xad, 0xff, 0x69, 0x8f, 0x9d, 0x6b, 0x10, 0xe4, 0xbd, 0xef, 0x86, 0x9e, 0x7f, 0x2a,
    0x77, 0xd5, 0x2e, 0x0d, 0x04, 0xb7, 0x96, 0x6f, 0xff, 0xe5, 0x5b, 0xda, 0x9c, 0x7e, 0xcd, 0x6d,
    0xa2, 0x26, 0xec, 0x3a, 0xc9, 0xe6, 0x4b, 0xdc, 0x85, 0x4b, 0x9b, 0x74, 0x5d, 0x4e, 0x1a, 0x1c,
    0x95, 0xbd, 0x90, 0x55, 0xf7, 0x95, 0xea, 0x21, 0x35, 0xc0, 0x6f, 0x87, 0x7c, 0x27, 0xce, 0xc5,
    0x59, 0x17, 0x95, 0xce, 0xe2, 0x4a, 0x8a, 0xcf, 0x2a, 0xc1, 0xf3, 0x9b, 0x90, 0xd1, 0xa6, 0x42,
    0x73, 0xf9, 0x34, 0x05, 0x19, 0x96, 0x01, 0xf8, 0x12, 0xb6, 0xdf, 0xb0, 0x9a, 0x02, 0x11, 0x1c,
    0xd6, 0x2d, 0x64, 0x67, 0x41, 0x68, 0x5f, 0x5b, 0x3e, 0x71, 0xe2, 0xf5, 0x67, 0x7e, 0x21, 0x9b,
    0xcd, 0x5d, 0xc8, 0xd6, 0xb9, 0xe6, 0x95, 0x46, 0x6b, 0x23, 0xe2, 0xb1, 0x08, 0xd5, 0x5e, 0xee,
    0xd0, 0x60, 0xd3, 0x29, 0x74, 0x23, 0x32, 0x2f, 0x8b, 0xc6, 0xcb, 0x64, 0x4c, 0xee, 0x48, 0xf3,
    0x8b, 0x27, 0x66, 0xa6, 0x2a, 0xb0, 0x66, 0x6e, 0xb3, 0xc8, 0x2d, 0xce, 0xb6, 0x91, 0xb8, 0x3b,
    0x24, 0xf4, 0x58, 0x6c, 0x73, 0x47, 0x74, 0xa4, 0xbb, 0x0f, 0xd1, 0x49, 0x49, 0x81, 0xa5, 0x64,
    0x01, 0xb7, 0xbf, 0x26, 0xc4, 0x10, 0x36, 0x84, 0x87, 0x4a, 0x27, 0xf6, 0x39, 0xc8, 0x51, 0xb0,
    0x8c, 0xa2, 0x90, 0x9b, 0x30, 0x73, 0x84, 0x90, 0x8d, 0xe5, 0x68, 0xc0, 0xbe, 0x4c, 0x9f, 0x30,
    0xaa, 0xfa, 0xa7, 0x5b, 0xf0, 0x66, 0x3e, 0x49, 0xcb, 0x54, 0x0a, 0x04, 0xd2, 0x7d, 0x6a, 0xe5,
    0x6a, 0x5b, 0x0a, 0x0e, 0x7a, 0x24, 0xe3, 0x42, 0x3a, 0x20, 0x95, 0x2a, 0xc9, 0x69, 0xb9, 0xcf,
    0xc9, 0x88, 0x4b, 0x2a, 0x58, 0xf0, 0xa5, 0x7a, 0x99, 0xcb, 0xaf, 0x49, 0x01, 0x26, 0x19, 0xaa,
    0xd4, 0x24, 0x25, 0xbd, 0x3f, 0xa9, 0xb8, 0xc1, 0x6d, 0x74, 0x52, 0x3e, 0xf6, 0x94, 0xe9, 0x5d,
    0xb5, 0xca, 0x30, 0xb3, 0xf3, 0x03, 0xa6, 0x1d, 0xf2, 0xfe, 0x8e, 0xf8, 0xa8, 0xdb, 0x1d, 0x65,
    0x26, 0xd5, 0xb4, 0x43, 0x64, 0x24, 0xf3, 0x06, 0xfa, 0xb6, 0x76, 0x66, 0x00, 0x4c, 0x12, 0x51,
    0xf4, 0x02, 0xd3, 0xb3, 0x3b, 0x69, 0x4f, 0x9c, 0x4a, 0x53, 0x8a, 0x45, 0xc7, 0x70, 0xe5, 0x15,
    0x6d, 0xb1, 0x1d, 0x85, 0x06, 0x90, 0x63, 0x95, 0x40, 0x3a, 0xd4, 0x66, 0x6e, 0xcb, 0x69, 0x68,
    0x9d, 0x4b, 0x34, 0xeb, 0x65, 0x01, 0x51, 0xc0, 0xd3, 0xff, 0x2b, 0x63, 0xa9, 0x93, 0x69, 0x18,
    0x46, 0x2c, 0x5d, 0xe9, 0x40, 0xb6, 0x60, 0xdd, 0x44, 0xc2, 0xc9, 0x66, 0xa4, 0x75, 0x78, 0xc4,
    0xba, 0x65, 0xfd, 0x11, 0x7d, 0x08, 0x96, 0xc2, 0x59, 0xf5, 0x72, 0x6c, 0xd3, 0xb7, 0x86, 0x5e,
    0x5e, 0x9d, 0x49, 0x02, 0x55, 0x89, 0x36, 0x71, 0x8e, 0x56, 0xb3, 0x5d, 0x53, 0x6d, 0x72, 0xd1,
    0x5e, 0x1c, 0xdb, 0x17, 0x53, 0x8e, 0x4a, 0xbb, 0x47, 0xa5, 0x16, 0x25, 0x86, 0x1e, 0x1d, 0xd4,
    0xa0, 0xd9, 0x58, 0x08, 0x82, 0x86, 0x9a, 0x30, 0x99, 0x07, 0xe8, 0x99, 0x10, 0xf7, 0x60, 0x88,
    0x32, 0x49, 0xe4, 0x76, 0xb5, 0x05, 0x8e, 0x14, 0x33, 0x04, 0x65, 0x39, 0x4e, 0xa5, 0xa4, 0x92,
    0x74, 0xde, 0x6d, 0xc9, 0x99, 0xd3, 0x25, 0x26, 0x65, 0xc3, 0x95, 0x49, 0x3b, 0x69, 0x49, 0x2f,
    0xdb, 0x84, 0xae, 0xa3, 0x49, 0xaf, 0x8b, 0xe0, 0xca, 0x5e, 0x88, 0xd4, 0x0f, 0x69, 0xc6, 0xee,
    0x78, 0x1b, 0x44, 0xcf, 0x22, 0x11, 0x13, 0x15, 0xbf, 0xa1, 0x01, 0x27, 0xe1, 0xb3, 0x09, 0xde,
    0x70, 0xb5, 0x99, 0xcc, 0x20, 0xc8, 0xcb, 0x28, 0x85, 0xb1, 0x9e, 0x17, 0xb6, 0x23, 0xad, 0xea,
    0x62, 0x80, 0x4a, 0x63, 0x23, 0x34, 0x4d, 0x4a, 0x4a, 0x7e, 0xf3, 0x7c, 0x50, 0xfe, 0x8c, 0xa3,
    0x18, 0xc1, 0x9d, 0x1d, 0x80, 0x46, 0x4d, 0xc7, 0x79, 0x42, 0xa4, 0x30, 0xd2, 0x82, 0xac, 0xd7,
    0xbf, 0x46, 0xa8, 0x2d, 0x03, 0x95, 0x5d, 0x3c, 0x49, 0xec, 0xa6, 0x78, 0xb8, 0x4f, 0x28, 0xfe,
    0x93, 0xa0, 0x34, 0xbd, 0xf9, 0x15, 0x0a, 0x1a, 0xcf, 0xd0, 0xb7, 0x81, 0xde, 0xb2, 0x5b, 0x8c,
    0x27, 0x96, 0x59, 0xce, 0xe9, 0x57, 0xf5, 0x4b, 0x30, 0x69, 0xe0, 0x4c, 0x95, 0x9f, 0x3e, 0xc7,
    0xc2, 0x30, 0x4c, 0x66, 0xca, 0x5f, 0xad, 0xd8, 0x84, 0x31, 0x20, 0x4c, 0xbf, 0x23, 0x64, 0x26,
    0x25, 0x47, 0xe9, 0xfc, 0x3b, 0xe9, 0x7b, 0x00, 0x95, 0x0a, 0x73, 0xec, 0x8c, 0xb0, 0xbd, 0x65,
    0xee, 0x90, 0x9f, 0x0a, 0xe8, 0x0a, 0x95, 0x0f, 0x08, 0xb4, 0xb0, 0x2e, 0xa6, 0xd6, 0x8a, 0xa2,
    0xdb, 0xc0, 0xf6, 0x4b, 0xfc, 0x05, 0x51, 0x3b, 0xf6, 0x65, 0xee, 0x80, 0x97, 0xbe, 0xc9, 0xb1,
    0x99, 0x90, 0x44, 0x71, 0x79, 0x36, 0x2e, 0xa4, 0xdd, 0xf3, 0xdc, 0x1c, 0x48, 0x02, 0xc8, 0x93,
    0xa2, 0xed, 0xb9, 0xe1, 0x8d, 0x67, 0x58, 0x69, 0x51, 0x50, 0x9e, 0xc1, 0x6f, 0x00, 0x5d, 0x3a,
    0x2e, 0x6e, 0x37, 0xa1, 0x33, 0x2c, 0xb0, 0x8f, 0x75, 0x47, 0x10, 0x85, 0x18, 0xd2, 0x46, 0xd8,
    0xb2, 0x41, 0x0c, 0x68, 0x0b, 0xfd, 0xd4, 0xad, 0x88, 0xb7, 0xb8, 0x6f, 0x6e, 0xa2, 0x1e, 0x19,
    0x9a, 0x78, 0x82, 0x4e, 0xda, 0xec, 0x98, 0x79, 0xb4, 0x53, 0x00, 0x63, 0x8c, 0xcd, 0xac, 0xb8,
    0x19, 0x4b, 0x21, 0x75, 0x47, 0x7d, 0xe9, 0xde, 0xf4, 0x01, 0xf5, 0x2d, 0x5a, 0xb1, 0x6c, 0xbe,
    0x4f, 0xb2, 0xd5, 0xba, 0xed, 0xf4, 0xad, 0xfc, 0xd3, 0x51, 0x90, 0x2e, 0xd3, 0xba, 0x85, 0xa4,
    0xe9, 0x9d, 0xce, 0x00, 0x02, 0xd5, 0xb2, 0x92, 0xbf, 0x9d, 0x3b, 0x12, 0xe0, 0x4e, 0x96, 0x90,
    0xbd, 0xcd, 0x40, 0x86, 0x58, 0x18, 0x82, 0xaf, 0xc9, 0xc4, 0xa0, 0x20, 0x9d, 0x6c, 0xd8, 0xb1,
    0xe7, 0xeb, 0xe2, 0xe7, 0xc9, 0xfc, 0x19, 0x68, 0x96, 0xf6, 0x91, 0xd3, 0xfc, 0x9f, 0x0a, 0x9f,
    0xba, 0x00, 0x3f, 0x69, 0xc5, 0xab, 0x89, 0x89, 0x55, 0x6c, 0x23, 0xef, 0x74, 0x2e, 0x87, 0x67,
    0xe2, 0xd6, 0x86, 0x36, 0xbe, 0xee, 0x14, 0xb3, 0xd6, 0x49, 0xc2, 0x9f, 0x7a, 0x27, 0x53, 0xed,
    0x4e, 0x1c, 0x11, 0xb8, 0x99, 0xae, 0x48, 0x5b, 0xa2, 0xd2, 0x64, 0x8a, 0xcb, 0x5c, 0x5d, 0xaa,
    0xc5, 0x32, 0x9a, 0xc6, 0xbc, 0x30, 0xc5, 0xf4, 0x27, 0x45, 0xdd, 0xfe, 0xee, 0xc8, 0x4d, 0x50,
    0x02, 0x53, 0xb7, 0x7e, 0xbe, 0xd3, 0x66, 0x6c, 0xc7, 0x41, 0x9d, 0x0c, 0x8d, 0x2a, 0x0b, 0xb6,
    0x12, 0x06, 0xf4, 0x15, 0xbe, 0x44, 0x71, 0xba, 0xee, 0x30, 0x33, 0xb7, 0x38, 0xf4, 0xcd, 0x87,
    0x7b, 0xf3, 0xe1, 0xde, 0x7c, 0xb8, 0x37, 0x1f, 0xee, 0xcd, 0x87, 0x7b, 0xf3, 0xe1, 0xde, 0x7c,
    0xb8, 0x37, 0x1f, 0xee, 0xcd, 0x87, 0x7b, 0xf3, 0xe1, 0xde, 0x7c, 0xb8, 0x37, 0x1f, 0xee, 0xcd,
    0x87, 0x7b, 0xf3, 0xe1, 0xde, 0x7c, 0xb8, 0x37, 0x1f, 0xee, 0xcd, 0x87, 0x7b, 0xf3, 0xe1, 0xde,
    0x7c, 0xb8, 0x37, 0x1f, 0xee, 0xcd, 0x87, 0x7b, 0xf3, 0xe1, 0xde, 0x7c, 0xb8, 0x37, 0x1f, 0xee,
    0xcd, 0x87, 0x7b, 0xf3, 0xe1, 0xde, 0x7c, 0xb8, 0x37, 0x1f, 0xee, 0xcd, 0x87, 0x7b, 0xf3, 0xe1,
    0xde, 0x7c, 0xb8, 0x37, 0x1f, 0xee, 0xcd, 0x87, 0x7b, 0xf3, 0xe1, 0xde, 0x7c, 0xb8, 0x37, 0x1f,
    0xee, 0xcd, 0x87, 0x7b, 0xf3, 0xe1, 0xde, 0x7c, 0xb8, 0x37, 0x1f, 0xee, 0xcd, 0x87, 0x7b, 0xf3,
    0xe1, 0xde, 0x7c, 0xb8, 0x37, 0x1f, 0xee, 0xcd, 0x87, 0x7b, 0xf3, 0xe1, 0xde, 0x7c, 0xb8, 0x37,
    0x1f, 0xee, 0xcd, 0x87, 0x7b, 0xf3, 0xe1, 0xde, 0x7c, 0xb8, 0x37, 0x1f, 0xee, 0xcd, 0x87, 0x7b,
    0xf3, 0xe1, 0xde, 0x7c, 0xb8, 0x37, 0x1f, 0xee, 0xcd, 0x87, 0x7b, 0xf3, 0xe1, 0xde, 0x7c, 0xb8,
    0x37, 0x1f, 0xee, 0xcd, 0x87, 0x7b, 0xf3, 0xe1, 0xde, 0x7c, 0xb8, 0x37, 0x1f, 0xee, 0xcd, 0x87,
    0x7b, 0xf3, 0xe1, 0xde, 0x7c, 0xb8, 0x37, 0x1f, 0xee, 0xcd, 0x87, 0x7b, 0xf3, 0xe1, 0xde, 0x7c,
    0xb8, 0x37, 0x1f, 0xee, 0xcd, 0x87, 0x7b, 0xf3, 0xe1, 0xde, 0x7c, 0xb8, 0x37, 0x1f, 0xee, 0xcd,
    0x87, 0x7b, 0xf3, 0xe1, 0xde, 0x7c, 0xb8, 0x37, 0x1f, 0xee, 0xcd, 0x87, 0x7b, 0xf3, 0xe1, 0xde,
    0x7c, 0xb8, 0x37, 0x1f, 0xee, 0xcd, 0x87, 0x7b, 0xf3, 0xe1, 0xde, 0x7c, 0xb8, 0x37, 0x1f, 0xee,
    0xcd, 0x87, 0x7b, 0xf3, 0xe1, 0xde, 0x7c, 0xb8, 0x37, 0x1f, 0xee, 0xcd, 0x87, 0x7b, 0xf3, 0xe1,
    0xde, 0x7c, 0xb8, 0x37, 0x1f, 0xee, 0xcd, 0x87, 0x7b, 0xf3, 0xe1, 0xde, 0x7c, 0xb8, 0x37, 0x1f,
    0xee, 0xcd, 0x87, 0x7b, 0xf3, 0xe1, 0xde, 0x7c, 0xb8, 0x37, 0x1f, 0xee, 0xcd, 0x87, 0x7b, 0xf3,
    0xe1, 0xde, 0x7c, 0xb8, 0x37, 0x1f, 0xee, 0xcd, 0x87, 0x7b, 0xf3, 0xe1, 0xde, 0x7c, 0xb8, 0x37,
    0x1f, 0xee, 0xcd, 0x87, 0x7b, 0xf3, 0xe1, 0xde, 0x7c, 0xb8, 0x37, 0x1f, 0xee, 0xcd, 0x87, 0x7b,
    0xf3, 0xe1, 0xde, 0x7c, 0xb8, 0x37, 0x1f, 0xee, 0xcd, 0x87, 0x7b, 0xf3, 0xe1, 0xde, 0x7c, 0xb8,
    0x37, 0x1f, 0xee, 0xcd, 0x87, 0x7b, 0xf3, 0xe1, 0xde, 0x7c, 0xb8, 0x37, 0x1f, 0xee, 0xcd, 0x87,
    0x7b, 0xf3, 0xe1, 0xde, 0x7c, 0xb8, 0x37, 0x1f, 0xee, 0xcd, 0x87, 0x7b, 0xf3, 0xe1, 0xde, 0x7c,
    0xb8, 0x37, 0x1f, 0xee, 0xcd, 0x87, 0x7b, 0xf3, 0xe1, 0xde, 0x7c, 0xb8, 0x37, 0x1f, 0xee, 0xcd,
    0x87, 0x7b, 0xf3, 0xe1, 0xde, 0x7c, 0xb8, 0x37, 0x1f, 0xee, 0xcd, 0x87, 0x7b, 0xf3, 0xe1, 0xde,
    0x7c, 0xb8, 0x37, 0x1f, 0xee, 0xcd, 0x87, 0x7b, 0xf3, 0xe1, 0xde, 0x7c, 0xb8, 0x37, 0x1f, 0xee,
    0xcd, 0x87, 0x7b, 0xf3, 0xe1, 0xde, 0x7c, 0x38, 0x98, 0x9b, 0xff, 0xfc, 0xf7, 0x7f, 0x13, 0x5e,
    0xcb, 0x99, 0x64, 0xea, 0x00, 0x00,
];

fn letters(n: usize) -> Vec<u8> {
    let mut out: Vec<u8> = Vec::with_capacity(n);
    let mut x: u32 = 12345;
    for _ in 0..n {
        x = x.wrapping_mul(1103515245).wrapping_add(12345) & 0x7fff_ffff;
        out.push(b"acgt"[((x >> 16) & 3) as usize]);
    }
    out
}

fn long_text() -> Vec<u8> {
    let period = letters(20000);
    let mut text: Vec<u8> = Vec::new();
    for _ in 0..3 {
        text.extend_from_slice(&period);
    }
    text.extend_from_slice(b"tail");
    text
}

#[test]
fn long_stream_with_far_back_references() {
    let mut sink = ByteSink::new();
    assert_eq!(decompress(&LONG, &mut sink), Ok(()));
    let out = sink.into_bytes();
    assert_eq!(out.len(), 60004);
    assert!(out == long_text());
}

#[test]
fn long_stream_twice_over() {
    let mut input = LONG.to_vec();
    input.extend_from_slice(&LONG);
    let mut sink = ByteSink::new();
    assert_eq!(decompress(&input, &mut sink), Ok(()));
    let out = sink.into_bytes();
    let text = long_text();
    assert_eq!(out.len(), 2 * text.len());
    assert!(out[..text.len()] == text[..]);
    assert!(out[text.len()..] == text[..]);
}

#[test]
fn long_stream_into_a_sink_with_a_limit() {
    let mut sink = ByteSink::with_limit(50000);
    assert_eq!(decompress(&LONG, &mut sink).unwrap_err().kind(), ErrorKind::WriteZero);
    let text = long_text();
    assert!(sink.as_slice() == &text[..50000]);
}

#[test]
fn long_stream_with_a_flipped_bit_does_not_decompress() {
    for at in [10usize, 500, 3000, 6000, 6749, 6750, 6757] {
        let mut bad = LONG.to_vec();
        bad[at] ^= 0x08;
        let mut sink = ByteSink::new();
        assert!(decompress(&bad, &mut sink).is_err(), "bit flipped in byte {}", at);
    }
}
