//! One tone of the sound that the program makes itself: 880 Hz, 44100 samples in a second. It comes up
//! in 8 ms to six tenths of the loudest, and goes down in as many. Each sample is written as four
//! hexadecimal digits of its two's complement, in twelve parts of 441 samples.
use vstd::prelude::*;

verus! {

const FIRST: &'static str = "\
    00000007001c003e006b00a400e5012d017901c60213025b029d02d50301031e032a0324030a02db0296\
    023b01cb014800b1000aff55fe94fdccfcfffc33fb6afaa9f9f5f952f8c3f84df7f3f7b8f7a0f7acf7dd\
    f834f8b3f957fa21fb0dfc19fd42fe83ffd8013c02a90418058406e6083809740a920b8e0c610d070d7c\
    0dbb0dc30d910d240c7d0b9d0a85093907bc06150448025c005afe47fc2efa17f80af611f434f27cf0f2\
    ef9cee82eda9ed17ecd0ecd7ed2dedd3eec7f007f191f35ef569f7abfa1bfcb1ff61022204e807a80a56\
    0ce80f511187137f1531169517a2185318a41892181a173e15ff14611267101b0d820aa70795045600f9\
    fd89fa16f6acf35bf031ed3aea84e81be60be45ce317e244e1e6e202e299e3a9e531e72ce992ec5def82\
    f2f5f6a9fa8ffe9a02b806d90aed0ee112a6162c19641c3f1eb020ac222a2322238f236c22b921761fa8\
    1d541a81173a138b0f820b2d069e01e7fd1af84bf38eeef5ea93e67de2c2df73dc9fda53d899d77ad6fc\
    d723d7f1d963db75de21e15ee51fe957edf6f2eaf820fd8402ff087c0de5132418221ccb210a24cf2808\
    2aa62c9f2de72e792e4f2d6a2bcb2977267522d11e9719d714a40f1109350325fcfbf6cff0bbead6e53a\
    dffedb37d6fbd35bd068ce2fccbbcc13cc3ccd36cf00d194d4e9d8f3dda4e2eae8b0eee1f563fc1e02f7\
    09d11092171e1d59232a28792d2f3137348136fd389f3960393b382e363b336a2fc42b55262f20651a0d\
    13400c1804b2fd2bf5a2ee34e701e025d9bed3e5ceb4ca40c69ec3ddc20ac12dc14dc26bc483c78fcb85\
    d055d5eedc3be324ea8cf259fa69029f0ad712f21ace224b294a2fae355d3a3d3e3b4144434a4444442c\
    430140c53d80393e340d2e0227341fbd17b90f4a068ffdabf4c4ebfbe376db56d3becccdc69fc150bcf5\
    b9a2b767b64cb65ab791b9edbd69c1f6c784cdfed54cdd51e5eeef01f86601f70b8e14f51e0826a32ea2\
    35e53c5141c9463a49904bbe4cbc4c864b1c488444c93ff93a28336e2be423ab1ae211ad0831fe94f4fd\
    eb92e279d9d7d1ceca7fc407be7fba00b699b45ab34ab36fb4c8b74ebafabfbac57dcc2bd3a9dbd9e49b\
    edcbf74400e00a7913e71d0625b02dc2351d3ba2413745c6493d4b8e4caf4c9b4b5448de454340923ade\
    343c2cc924a21be712bd0947ffacf612eca0e37cdacbd2afcb49c4b7bf13ba75b6edb48cb35ab35bb491";

const SECOND: &'static str = "\
    b6f6ba81bf22c4c9cb5dd2c5dae3e396ecbbf62effc8096312d81c0224bb2ce034513af040a1455048e7\
    4b5a4c9d4cad4b89493545bb41283b9035082dac25971cec13cc0a5d00c4f728edb0e481dbc1d392cc16\
    c56bbfabbaedb745b4c2b36db34cb45eb6a1ba0bbe8ec418ca93d1e4d9efe293ebadf518feb0084d11c8\
    1afc23c42bfb33823a3a400844d5488d4b214c884cbb4bb94988462e41bb3c3f35d22e8b268a1dee14da\
    0b7201dcf83feec0e587dcb8d478cce6c621c045bb69b7a1b4fcb384b340b430b651b999bdfdc36ac9cb\
    d105d8fde191ea9ff403fd98073610b719f522cb2b1532b139823f6c4457482f4ae54c6f4cc54be649d6\
    469e424a3ceb36982f69277c1ef015e70c8702f4f955efd2e68fddb2d560cdb8c6dbc0e3bbe9b801b53a\
    b39fb338b405b604b92bbd70c2c0c906d029d80ce090e993f2effc80061f0fa518ed21d02a2c31de38c7\
    3ecd43d647ce4aa64c514cca4c0f4a22470a42d63d94375b3044286b1fef16f30d9b040cfa6df0e4e798\
    deaed64ace8dc797c185bc6db864b57cb3bfb334b3deb5bab8c1bce6c218c844cf4fd71edf92e887f1db\
    fb6805080e9317e320d42941310738093e2a435047694a624c304ccc4c344a694773435e3e3a381c311d\
    295820ed17fe0eae0523fb84f1f7e8a2dfabd736cf65c857c229bcf3b8cbb5c2b3e2b334b3bbb575b85a\
    bc5fc174c785ce78d632de95e77df0c8fa5103f00d7f16d91fd62853302f37483d8442c847004a1a4c0b\
    4cca4c544aac47d843e33edd38da31f32a4321e919070fc1063bfc9cf30be9ade0aad824d03fc919c2d1\
    bd7eb936b60bb409b339b39db534b7f7bbdcc0d3c6c8cda3d548dd99e674efb6f93a02d80c6b15cc1ed6\
    27642f5336843cda423c469349cf4be24cc44c714aec483944643f7c399532c62b2c22e41a0f10d20752\
    fdb4f41feabae1aad915d11cc9dfc37bbe0cb9a5b658b434b341b382b4f6b798bb5dc036c60fccd1d461\
    dca0e56deea5f82301c00b5614bf1dd526722e7535bd3c2e41ac4623497f4bb54cba4c8a4b27489644e1\
    40183a4d33972c1223dc1b1611e30868feccf534ebc8e2adda07d1fbcaa7c429be9dba17b6aab463b34d\
    b36bb4bcb73cbae1bf9bc558cc02d37bdba8e467ed94f70c00a80a4113b11cd2257f2d9534f43b7e4119\
    45af492c4b844cab4c9f4b5f48f0455b40b03b0134652cf724d31c1c12f3097fffe4f64aecd6e3b0dafc";

const THIRD: &'static str = "\
    d2dccb72c4dbbf31ba8cb6ffb496b35db358b487b6e5ba69bf04c4a5cb35d298dab2e362ec85f5f6ff90\
    092b12a21bce24892cb234283acc4083453748d54b4f4c994cb04b93494645d241463bb335312dd825c8\
    1d2014020a9400fcf760ede6e4b5dbf2d3c0cc3fc58fbfc9bb06b758b4cdb371b349b455b691b9f4be71\
    c3f5ca6bd1b8d9bee25feb77f4e1fe78081511921ac823922bce33593a163fe944bc487b4b164c834cbd\
    4bc34998464541d83c6235f92eb826bb1e2215100ba90214f876eef7e5bcdcead4a6cd10c646c065bb83\
    b7b4b508b389b33eb427b641b983bde1c348c9a3d0d9d8cde15dea69f3ccfd6006fe108119c022992ae6\
    3287395d3f4d443d481c4ad94c694cc64bef49e646b442663d0d36bf2f9527ac1f23161d0cbe032cf98d\
    f008e6c4dde4d58ecde2c700c103bc03b815b547b3a5b337b3fdb5f5b916bd54c29ec8dfcffdd7dde05d\
    e95df2b8fc4805e70f6e18b8219e29fd31b338a13eac43bb47ba4a984c4b4ccb4c174a30472042f13db6\
    37823070289b202217290dd20444faa5f11be7cddee0d679ceb8c7bdc1a5bc87b879b589b3c5b334b3d7\
    b5acb8acbccbc1f7c81dcf24d6efdf5fe852f1a4fb3004d00e5c17ae20a1291130dc37e33e0943354754\
    4a544c294ccc4c3a4a77478743793e5b384231482987212018330ee5055bfbbcf22ee8d7dfded765cf90\
    c87ec24abd0fb8e0b5d0b3e9b335b3b5b568b846bc45c154c75fce4dd603de62e748f092fa1903b80d48\
    16a31fa32823300337213d6242ac46ea4a0c4c034cc94c5b4ab947eb43fd3efd3900321e2a72221c193c\
    0ff80673fcd4f342e9e3e0ddd854d06bc941c2f2bd9ab94cb61ab411b33ab397b527b7e4bbc3c0b4c6a3\
    cd79d51add67e640ef7ff90202a00c3415971ea327342f27365d3cb8421f467d49bf4bd94cc24c774af8\
    484c447d3f9b39ba32f02b5a23161a441109078afdecf456eaf0e1ded945d148ca06c39ebe28b9bbb668\
    b43db343b37db4eab785bb44c017c5eacca7d433dc6ee539ee6ef7eb01880b1f14891da126422e493595\
    3c0b418f460c496f4bab4cb74c8f4b3348a844fa40373a7133c12c40240e1b4b121a08a0ff04f56bebfe\
    e2e0da38d227cacfc44dbebaba2eb6bab46db350b367b4b1b72bbac9bf7dc535cbd8d34edb77e433ed5e\
    f6d500700a0a137b1c9e254e2d6834cb3b5b40fc4597491b4b794ca84ca34b6a4901457340cf3b25348e";

const FOURTH: &'static str = "\
    2d2425041c50132a09b6001cf681ed0de3e4db2dd309cb9bc4febf4fbaa4b710b4a1b361b355b47cb6d4\
    ba51bee7c482cb0cd26bda81e32eec4ff5bfff5808f4126b1b9924582c8533ff3aa74065451f48c44b44\
    4c954cb34b9d495645e941633bd635592e0525f91d5314380acc0134f797ee1ce4eadc23d3eecc69c5b3\
    bfe8bb1eb76ab4d9b376b346b44bb681b9ddbe54c3d2ca43d18bd98ee22beb41f4aafe4007de115b1a93\
    23602ba0332f39f13fca44a348684b0a4c7e4cbf4bcc49a8465b41f43c8436212ee426eb1e5515460be1\
    024cf8aeef2de5f0dd1cd4d4cd3ac66bc084bb9cb7c7b514b38fb33cb41eb631b96dbdc4c326c97cd0ad\
    d89de12aea34f395fd2806c7104a198c22672ab8325d39383f2d442448094acc4c634cc74bf749f546ca\
    42823d2f36e72fc127dc1f5616520cf50364f9c5f03fe6f8de17d5bdce0dc726c123bc1db828b554b3ac\
    b336b3f5b5e6b900bd38c27cc8b8cfd2d7ade02ae928f281fc1005af0f381883216c29ce3188387c3e8c\
    43a147a64a8b4c454ccc4c1e4a3f4735430c3dd737a9309b28ca2055175e0e09047cfadcf152e802df13\
    d6a8cee3c7e4c1c6bca2b88db597b3ccb334b3d0b59eb897bcb0c1d6c7f7cef9d6c0df2ce81df16dfaf9\
    04980e251779206e28e230b137bc3de8431a473f4a464c224ccc4c414a84479c43933e7c3869317329b6\
    215218680f1c0593fbf4f265e90de010d795cfbcc8a4c26cbd2ab8f6b5deb3f1b336b3afb55ab832bc2a\
    c133c739ce22d5d4de30e713f05bf9e103800d11166d1f7027f42fd736fa3d40429046d549fd4bfb4cc8\
    4c604ac647ff44173f1d392532482aa0224e1971102e06aafd0cf379ea19e110d884d097c968c315bdb6\
    b962b629b41ab33bb391b51bb7d1bba9c094c67ecd4fd4ebdd35e60bef49f8ca02680bfc15611e702703\
    2efb36353c964203466749af4bd04cc04c7c4b04485f44963fba39df331a2b8823471a78114007c1fe24\
    f48eeb25e211d975d175ca2fc3c1be45b9d2b679b447b345b378b4dfb773bb2bbff8c5c6cc7ed405dc3c\
    e504ee38f7b301500ae714531d6e26112e1c356e3be8417245f5495f4ba24cb44c934b3e48bb45134055\
    3a9533ea2c6e243f1b7f125008d8ff3cf5a3ec34e314da69d255caf8c470bed8ba45b6cbb477b353b363\
    b4a6b719bab1bf5fc510cbafd320db46e3ffed28f69d003809d213451c6a251d2d3b34a33b3740de457f";

const FIFTH: &'static str = "\
    490a4b6f4ca54ca64b744913458b40ed3b4934b72d5125351c84136009ee0054f6b9ed43e418db5ed336\
    cbc4c522bf6ebabdb722b4acb365b351b472b6c3ba3abec9c45ecae3d23eda50e2faec19f587ff2008bc\
    12351b6524272c5733d63a834046450648b24b384c914cb64ba64967460041813bf935812e3226291d87\
    146e0b04016cf7cfee53e51edc55d41bcc92c5d8c007bb37b77cb4e4b37ab344b442b671b9c7be37c3af\
    ca1bd15ed95de1f8eb0bf472fe0807a611251a5e232f2b71330539cc3fab448a48554afe4c794cc14bd5\
    49b7467242113ca736492f11271b1e89157c0c180284f8e6ef64e625dd4ed502cd64c690c0a4bbb6b7da\
    b521b394b33bb416b622b957bda8c304c955d081d86ce0f7e9fef35efcf0068f1013195722352a893233\
    39123f0d440a47f54ac04c5e4cc94bff4a0446e0429e3d51370d2fed280b1f8916880d2c039cf9fdf076\
    e72dde49d5ecce38c74cc143bc38b83cb561b3b2b335b3edb5d7b8ebbd1cc25bc891cfa6d77ddff7e8f2\
    f24afbd805770f01184e2139299f315d38563e6b438647924a7d4c3e4ccc4c254a4d474a43283df837cf\
    30c628fa208817930e4004b4fb14f188e837df45d6d7cf0ec80ac1e7bcbdb8a2b5a5b3d3b334b3c9b590\
    b883bc95c1b6c7d1ceced690defae7e8f136fac004600dee1744203c28b2308537963dc742ff472a4a37\
    4c1a4ccb4c484a9247b043ae3e9c388e319e29e52185189d0f5305cbfc2cf29ce942e044d7c5cfe7c8cb\
    c28dbd46b90bb5edb3f9b336b3a8b54db81ebc10c114c713cdf8d5a6ddfee6def024f9a903480cda1638\
    1f3d27c42fab36d33d1f427446bf49ed4bf34cc74c664ad3481244303f3c394a32722acf227f19a61065\
    06e2fd44f3b0ea4ee144d8b4d0c3c98fc337bdd2b978b639b423b33db38cb50eb7bebb90c074c658cd25\
    d4bddd04e5d6ef12f89202310bc5152b1e3c26d32ecf360d3c7341e6465049a04bc74cbe4c814b104871\
    44b03fda3a0333442bb623791aae117607f9fe5cf4c5eb5ce245d9a6d1a1ca56c3e4be62b9e8b689b450\
    b348b373b4d3b761bb12bfd9c5a1cc54d3d7dc0be4d0ee02f77c01180ab0141e1d3a25e12def35453bc5\
    415545de494e4b984cb24c974b4948cc452b40743ab934132c9c24711bb31286090fff74f5daec6ae348\
    da9ad282cb20c493bef5ba5db6dcb481b356b35fb49cb707ba99bf40c4edcb86d2f3db14e3caecf2f666";

const SIXTH: &'static str = "\
    0000099b130f1c3624ec2d0e347a3b1440c0456848f94b644ca14caa4b7f492445a3410a3b6c34e02d7e\
    25661cb713960a26008cf6f0ed79e44ddb8fd364cbedc546bf8cbad5b733b4b7b369b34eb468b6b2ba22\
    beacc43bcabbd211da20e2c7ebe3f550fee8088411ff1b3023f52c2933ac3a5f402744ee489f4b2d4c8d\
    4cb84bb049774617419e3c1c35a92e5f265a1dbb14a40b3b01a4f807ee8ae552dc87d44accbcc5fcc026\
    bb50b78fb4f0b37fb342b439b660b9b0be1ac38dc9f3d132d92de1c5ead5f43bfdd0076e10ee1a2a22fd\
    2b4332db39a83f8c447148424af24c744cc34bdd49c74688422d3cc936712f3d274b1ebc15b20c5002bc\
    f91def9be65add80d531cd8ec6b5c0c3bbd0b7edb52db39ab339b40db613b941bd8cc2e2c92dd055d83d\
    e0c4e9c8f327fcb906570fdc192222032a5b320838ed3eed43f047e24ab34c584cca4c074a1346f542ba\
    3d7337353018283b1fbc16be0d6403d4fa35f0ade762de7bd61ace62c772c164bc52b850b56eb3b8b335\
    b3e6b5c9b8d6bd01c23ac86bcf7bd74edfc4e8bdf213fba005400eca181921072970313238303e4b436c\
    477d4a704c374ccc4c2d4a5b475e43433e1937f630f2292920ba17c90e7704ecfb4cf1c0e86ddf78d706\
    cf3ac830c208bcd8b8b6b5b3b3dbb334b3c2b583b86fbc7ac195c7abcea3d661dec7e7b3f100fa890428\
    0db7170e20092883305a376f3da542e347154a294c134ccb4c4e4a9f47c443c83ebc38b431c82a1421b7\
    18d20f8a0603fc64f2d4e978e077d7f4d013c8f2c2afbd62b920b5fcb401b337b3a2b540b80bbbf6c0f3\
    c6eecdced577ddcbe6a9efedf97203100ca216021f0a27942f7f36ab3cfc425846a949de4bea4cc54c6c\
    4adf4826444a3f5c396f329c2afe22b219da109c071afd7cf3e8ea84e177d8e5d0efc9b7c359bdefb98e\
    b649b42bb33fb387b502b7abbb76c055c634ccfbd48fdcd2e5a2eedcf85a01f80b8e14f61e0826a32ea2\
    35e63c5141c9463949904bbe4cbc4c864b1c488444c83ff93a28336e2be423aa1ae211ad0831fe93f4fc\
    eb91e279d9d6d1cdca7ec406be7fba00b699b45ab34ab36fb4c8b74fbafabfbac57dcc2bd3a9dbdae49b\
    edcbf74400e10a7913e71d0625b02dc2351d3ba2413745c6493d4b8e4caf4c9b4b5448de454340923add\
    343c2cc924a21be812bd0947ffacf612eca0e37cdacbd2aecb49c4b7bf13ba74b6edb48cb35ab35bb491";

const SEVENTH: &'static str = "\
    b6f6ba81bf23c4c9cb5ed2c6dae3e396ecbbf62effc8096312d81c0224bb2ce034513af040a1455048e7\
    4b5a4c9d4cad4b89493545ba41283b9035082dab25971cec13cc0a5d00c4f728edb0e481dbc0d392cc16\
    c56bbfabbaedb745b4c2b36db34cb45fb6a2ba0bbe8ec418ca93d1e5d9efe293ebadf518feb0084d11c8\
    1afc23c42bfc33833a3a400944d5488d4b224c884cbb4bb94987462e41bb3c3f35d12e8b268a1def14da\
    0b7201dcf83feec0e587dcb8d477cce6c621c045bb69b7a1b4fcb384b340b430b651b999bdfdc36ac9cb\
    d106d8fde191eaa0f404fd98073610b719f622cb2b1532b139823f6c4457482f4ae54c6f4cc54be649d6\
    469e424a3ceb36982f69277c1ef015e70c8702f4f955efd1e68eddb2d560cdb8c6dac0e3bbe9b801b53a\
    b39fb338b405b603b92bbd70c2c0c906d029d80de091e993f2effc80061f0fa618ed21d02a2c31de38c7\
    3ecd43d547ce4aa64c514cca4c0f4a21470a42d53d94375c3044286a1fef16f30d9b040cfa6cf0e4e798\
    deaed64ace8dc797c184bc6cb864b57cb3bfb334b3deb5bab8c1bce6c218c844cf4fd71fdf92e887f1dc\
    fb6805080e9317e320d42940310838093e2a435147694a624c304ccc4c344a694773435e3e3a381c311d\
    295820ed17fe0eae0524fb84f1f7e8a2dfabd736cf65c857c229bcf3b8cbb5c1b3e2b334b3bbb575b85a\
    bc60c174c785ce78d632de95e77df0c8fa5103f00d8016d91fd62853302e37483d8442c847004a1a4c0b\
    4cca4c544aac47d843e23edd38da31f32a4321e919070fc1063bfc9bf30ae9ade0aad824d03fc919c2d1\
    bd7eb936b60bb409b339b39db534b7f7bbdcc0d3c6c8cda3d549dd99e674efb7f93a02d80c6b15cc1ed6\
    27642f5336843cda423c469349cf4be24cc44c714aec483944643f7c399532c62b2c22e41a1010d20751\
    fdb4f41feabae1aad914d11bc9dfc37bbe0bb9a4b658b434b341b382b4f6b798bb5dc036c60fccd1d461\
    dca0e56deea5f82301c00b5614bf1dd526722e7535be3c2e41ad4623497f4bb54cba4c8a4b27489644e1\
    40183a4c33972c1223dc1b1611e30868feccf534ebc7e2acda08d1fbcaa7c42abe9dba16b6aab463b34d\
    b36bb4bdb73dbae1bf9bc559cc02d37bdba9e467ed95f70d00a80a4213b11cd2257f2d9534f43b7e4119\
    45af492c4b844cab4c9f4b5f48f0455b40b13b0134652cf624d31c1c12f3097effe4f649ecd7e3b0dafb";

const EIGHTH: &'static str = "\
    d2dccb71c4dbbf31ba8cb6ffb496b35db358b487b6e5ba69bf04c4a6cb35d298dab2e362ec86f5f7ff90\
    092c12a21bce248a2cb234283acc4083453848d54b4f4c994cb04b93494645d241463bb335302dd925c8\
    1d2014020a9400fcf760ede6e4b5dbf2d3c0cc3fc58fbfc9bb06b758b4cdb371b349b455b691b9f4be71\
    c3f5ca6bd1b7d9bee25feb77f4e1fe78081611911ac823922bce33593a163fe944bc487b4b164c834cbd\
    4bc34998464541d73c6235f92eb826ba1e2115100ba90214f876eef6e5bcdcead4a6cd0fc646c065bb83\
    b7b4b508b389b33eb427b641b983bde1c348c9a3d0d9d8cde15eea69f3ccfd6006fe108119c022992ae6\
    3287395d3f4d443e481c4ad94c694cc64bee49e646b442663d0d36bf2f9527ac1f22161d0cbe032cf98d\
    f008e6c4dde4d58ecde3c700c103bc03b815b547b3a5b337b3fdb5f4b916bd54c29ec8dfcffdd7dde05e\
    e95df2b8fc4805e70f6f18b8219e29fc31b338a23eac43bb47ba4a984c4b4ccb4c164a30471f42f13db6\
    37823070289a202117290dd20444faa4f11ae7cddee0d679ceb8c7bdc1a5bc87b878b589b3c5b334b3d7\
    b5acb8acbccbc1f7c81dcf24d6efdf5fe852f1a4fb3104d00e5c17ae20a1291230dc37e33e0943354754\
    4a544c294ccc4c3b4a76478743783e5b384231472987211f18330ee5055bfbbcf22ee8d7dfddd765cf90\
    c87dc24abd0fb8e0b5d0b3e9b335b3b5b568b846bc45c154c75fce4ed603de62e748f092fa1a03b80d48\
    16a31fa32824300337213d6242ac46eb4a0b4c034cc94c5b4ab947ec43fd3efd38ff321d2a72221c193c\
    0ff70672fcd4f341e9e3e0ddd854d06bc940c2f3bd9ab94cb61ab411b33ab397b527b7e4bbc3c0b3c6a3\
    cd79d51add68e63fef80f90202a00c3415961ea327342f27365d3cb9421f467d49bf4bd94cc24c774af8\
    484c447d3f9b39ba32f02b5a23151a4411090789fdecf456eaefe1ded945d148ca06c39ebe28b9bbb668\
    b43db343b37db4eab785bb44c017c5eacca8d432dc6ee539ee6ff7ec01880b1f148a1da126422e483596\
    3c0b418f460c496f4bab4cb74c8f4b3348a944fa40363a7133c02c40240e1b4a121a08a0ff04f56cebfd\
    e2e0da38d228cacfc44dbebaba2eb6bbb46db350b367b4b1b72bbac9bf7dc534cbd8d34edb77e433ed5e\
    f6d500700a0a137c1c9e254e2d6834cc3b5b40fc4597491b4b794ca84ca34b6a4901457340ce3b25348e";

const NINTH: &'static str = "\
    2d2425041c4f132a09b6001cf681ed0ce3e5db2dd309cb9ac4febf50baa4b710b4a1b361b355b47cb6d4\
    ba51bee7c482cb0cd26bda81e32fec4ff5bfff5908f4126c1b9924592c8633ff3aa84065451f48c44b44\
    4c954cb34b9d495645e941633bd635592e0525f91d5314380acb0133f798ee1ce4eadc23d3edcc69c5b3\
    bfe8bb1eb76ab4d9b376b346b44bb681b9ddbe54c3d2ca43d18bd98ee22beb41f4aafe4007dd115b1a93\
    23612ba0332f39f23fca44a348684b0a4c7e4cbf4bcc49a7465b41f43c8536212ee426eb1e5515460be1\
    024cf8aeef2de5f1dd1cd4d4cd3ac66bc084bb9cb7c7b514b38fb33cb41eb631b96dbdc4c325c97cd0ad\
    d89ce12aea33f395fd2806c6104a198c22672ab8325d39383f2d442448094acc4c634cc74bf749f546ca\
    42823d2f36e62fc027dc1f5616520cf50363f9c5f03fe6f8de16d5bcce0dc726c123bc1db828b554b3ac\
    b336b3f5b5e6b900bd38c27dc8b8cfd2d7ade02ae928f281fc1105af0f381883216c29ce3188387c3e8c\
    43a147a64a8b4c454ccc4c1e4a3e4735430d3dd737a9309b28ca2055175d0e09047bfadcf151e801df13\
    d6a8cee3c7e3c1c5bca2b88db597b3ccb334b3d0b59eb897bcb0c1d7c7f7cef9d6c0df2ce81df16dfaf9\
    04980e251779206e28e230b137bc3de8431a473f4a464c224ccc4c414a84479c43933e7b3869317329b6\
    215218680f1c0593fbf4f265e90ce011d795cfbbc8a4c26bbd2ab8f5b5deb3f1b336b3afb55bb832bc2b\
    c134c739ce23d5d5de30e713f05bf9e203810d11166e1f7027f42fd836fa3d40429046d549fd4bfb4cc8\
    4c604ac647ff44173f1d392532482aa0224e1971102e06aafd0bf379ea19e110d884d096c968c315bdb6\
    b962b629b41ab33bb391b51bb7d1bba9c094c67ecd4fd4ecdd35e60bef49f8ca02690bfd15621e6f2703\
    2efb36353c964203466749b04bd04cc04c7c4b04485f44963fba39df331a2b8823471a78114007c1fe24\
    f48eeb25e212d976d174ca2ec3c1be45b9d2b678b447b345b378b4deb773bb2bbff8c5c6cc7ed405dc3c\
    e504ee38f7b401510ae814541d6e26112e1c356d3be8417245f5495f4ba14cb44c934b3e48ba45134055\
    3a9533ea2c6d24401b7f125008d8ff3bf5a3ec34e314da69d254caf8c470bed8ba45b6cbb477b353b363\
    b4a6b719bab0bf5fc511cbafd321db45e3ffed29f69d003809d213451c6b251d2d3b34a33b3740de457f";

const TENTH: &'static str = "\
    490a4b6f4ca54ca64b744912458b40ec3b4834b72d5125351c83135f09ee0054f6b9ed43e418db5ed337\
    cbc4c522bf6dbabdb722b4acb365b351b472b6c3ba3abec9c45fcae3d23eda50e2fbec19f587ff2008bc\
    12351b6524272c5833d53a834046450748b24b384c914cb64ba64967460041803bf935812e32262a1d87\
    146e0b03016cf7ceee53e51edc55d41bcc92c5d8c007bb37b77cb4e4b37ab344b442b671b9c7be37c3b0\
    ca1bd15fd95ee1f8eb0bf472fe0807a611241a5f232f2b72330639cc3fab448a48554afe4c794cc14bd5\
    49b7467242113ca636492f11271b1e89157b0c180283f8e5ef64e625dd4ed502cd63c690c0a4bbb6b7da\
    b521b394b33bb416b622b957bda8c304c954d081d86de0f7e9fef35dfcf1068f1013195722342a8a3233\
    39123f0d440a47f54ac04c5e4cc94bff4a0446df429e3d51370e2fec280b1f8916870d2d039cf9fdf076\
    e72dde49d5ebce38c74cc143bc38b83cb561b3b2b335b3edb5d7b8ebbd1dc25bc891cfa6d77ddff7e8f3\
    f24afbd805770f01184e2139299f315d38553e6c438647924a7d4c3e4ccc4c254a4d474a43283df837cf\
    30c628fa208817930e4004b4fb14f189e837df45d6d7cf0dc80ac1e6bcbdb8a2b5a5b3d3b334b3c9b590\
    b883bc94c1b6c7d1ceced691def9e7e8f137fac104610ded1744203c28b2308637953dc742ff472a4a38\
    4c1a4ccb4c484a9247b043ae3e9c388e319e29e52185189d0f5305cbfc2bf29de942e044d7c5cfe7c8cc\
    c28dbd46b90bb5edb3f9b336b3a9b54db81fbc11c113c714cdf8d5a6ddfee6def025f9a903490cda1638\
    1f3e27c32fac36d33d1e427546bf49ee4bf34cc74c664ad3481244303f3d394a32722acf228019a61064\
    06e3fd43f3b0ea4ee143d8b5d0c3c98fc337bdd2b978b639b423b33db38cb50eb7bebb90c074c659cd25\
    d4bddd04e5d6ef13f89302300bc6152b1e3d26d32ece360e3c7341e6465049a04bc74cbe4c814b104871\
    44af3fda3a0333442bb623781aae117607f9fe5cf4c4eb5ce245d9a6d1a1ca56c3e4be62b9e9b689b450\
    b348b374b4d3b761bb13bfd8c5a1cc54d3d7dc0ce4d0ee02f77c01180ab1141e1d3a25e12def35463bc5\
    415545de494e4b984cb24c974b4948cc452b40743ab934132c9c24701bb31286090fff74f5daec6ae348\
    da9ad282cb20c493bef5ba5db6dcb481b356b35fb49cb707ba99bf41c4edcb86d2f2db15e3cbecf2f667";

const ELEVENTH: &'static str = "\
    0000099b130f1c3624ed2d0e347a3b1440c0456848f94b644ca14caa4b7e492445a3410a3b6d34df2d7e\
    25661cb813960a25008bf6f0ed79e44ddb8fd364cbedc546bf8cbad4b733b4b7b369b34eb468b6b2ba22\
    beabc43bcabcd211da20e2c6ebe3f551fee8088511ff1b3023f62c2a33ac3a5f402744ee48a04b2d4c8d\
    4cb84bb049774617419e3c1c35a92e5f265a1dbb14a40b3a01a4f807ee8ae552dc86d449ccbcc5fdc026\
    bb50b78fb4f0b37fb342b439b660b9b0be1ac38dc9f3d132d92de1c4ead6f43bfdd0076e10ee1a2a22fd\
    2b4332db39a73f8c447148424af24c744cc34bdd49c74688422e3cc936702f3d274b1ebc15b10c4f02bc\
    f91def9ae65add80d531cd8dc6b5c0c3bbcfb7eeb52db39ab339b40db613b941bd8cc2e2c92dd055d83d\
    e0c4e9c9f326fcb806580fdd192222032a5a320938ed3eed43f047e24ab34c584cca4c074a1346f542ba\
    3d7337353019283b1fbc16be0d6403d4fa34f0ade763de7ad61bce62c771c164bc52b850b56eb3b8b335\
    b3e6b5c9b8d6bd01c23ac86bcf7ad74edfc5e8bdf213fba005400eca18182107296f3133382f3e4a436c\
    477d4a704c374ccc4c2c4a5b475e43433e1937f530f2292920ba17c90e7604ecfb4cf1c0e86ddf78d707\
    cf39c830c208bcd8b8b6b5b3b3dab334b3c2b583b86fbc7ac195c7abcea3d661dec8e7b2f100fa890428\
    0db8170e20092883305a37703da542e447154a294c134ccb4c4e4a9f47c443c83ebd38b431c82a1421b6\
    18d30f890603fc64f2d3e978e076d7f4d013c8f2c2afbd62b920b5fcb401b337b3a2b540b80bbbf7c0f4\
    c6eecdced577ddcce6aaefedf97303100ca316031f0a27952f7f36ac3cfd425846aa49de4bea4cc54c6c\
    4adf4826444a3f5c3970329b2afe22b119da109c0719fd7cf3e7ea84e177d8e4d0f0c9b7c359bdefb98e\
    b649b42bb33fb387b502b7abbb76c055c634ccfbd48edcd2e5a2eedbf85b01f90b8e14f51e0826a32ea2\
    35e63c5141c9463a49904bbe4cbc4c864b1b488444c83ff83a28336d2be423ab1ae111ad0830fe93f4fc\
    eb90e279d9d6d1cdca7ec406be80b9ffb699b45ab34ab36fb4c8b74fbafabfbbc57dcc2bd3a9dbd9e49c\
    edcbf74500e00a7913e81d0525b02dc2351d3ba2413745c7493d4b8e4caf4c9b4b5448de454340923add\
    343c2cc924a21be712bc0947ffacf612ec9fe37cdacad2afcb49c4b6bf13ba74b6edb48cb359b35bb491";

const TWELFTH: &'static str = "\
    b6f6ba80bf23c4c9cb5ed2c5dae3e397ecbcf62effc8096312d91c0224bb2ce034513af040a2455048e7\
    4b5a4c9d4cad4b89493545ba41283b9035082dac25961ceb13cc0a5d00c4f727edafe481dbc1d392cc15\
    c56abfabbaedb746b4c2b36db34cb45eb6a2ba0bbe8ec418ca93d1e5d9efe293ebadf518feb1084d11c8\
    1afc23c42bfc33833a3b400844d5488d4b224c884cbb4bb94987462e41bb3c3f35d22e8b268a1dee14da\
    0b7101dbf83eeec0e587dcd1d4b6cd55c6c9c12dbc94b912b6b0b579b56eb68eb8d4bc33c09dc5ffcc42\
    d34bdafce335ebd6f4bbfdbf06be0f93181d203a27c72ea934c53a043e5341a043e0450d452344234213\
    3efe3af235ff303c29c122a91b12131b0ae3028ffa3ef212ea2ce2aadbabd54acf9fcac0c6bec3a9c18c\
    c06dc04ec130c30cc5d9c98ace0fd355d944dfc4e6bbee08f592fd3704da0c5c139d1a8420f226d12c09\
    3087343a3714390c3a1b3a3f397a37cf354831ef2dd5290c23a71dbd176810c109e502eefbfaf523ee86\
    e83de260dd05d842d428d0c6ce28cc59cb5ccb34cbe0cd5ccfa0d2a1d652daa2df7fe4d2ea89f088f6b8\
    fd00034509710f6815141a5f1f33238027352a432ca22e472f2f2f582ec32d732b7028c4257a21a21d4c\
    188d13750e1c089702fefd67f7e8f297ed8ae8d3e486e0b1dd64daaad88ed715d644d61dd69ed7c4d988\
    dbe2dec6e227e5f8ea26eea0f354f82dfd18020106d30b7d0feb140d17d11b2c1e0f2071224a2394244b\
    246e23ff230121791f6f1cee1a0116b413170f390b2906fb02befe84fa5ef65cf28fef04ebc9e8ebe673\
    e46ae2d7e1bfe124e107e167e240e38ee549e76ae9e4ecafefbdf300f66cf9f0fd80010b048407de0b0a\
    0dfd10ac130d151716c5180f18f4197019841931187a176415f4143312280fde0d5e0ab407ec0511022f\
    ff52fc86f9d6f74cf4f1f2cff0eeef53ee03ed03ec55ebf9ebf1ec3aecd0edb1eed7f03cf1d8f3a4f597\
    f7a8f9cffc02fe3600650283048a0671083109c40b250c4f0d3f0df30e680ea00e9b0e5a0de10d330c54\
    0b4a0a1a08cb076305e9046302d90150ffd1fe60fd03fbc0fa9bf998f8baf803f774f710f6d5f6c3f6d9\
    f714f772f7f0f88af93bfa00fad4fbb3fc98fd7efe61ff3d000e00d10183022102aa031c037603b803e2\
    03f603f303dd03b4037c033602e70290023501d8017d012600d6008f005300230000ffebffe4ffeb0000";

/// The digits of all the samples, in their order.
pub closed spec fn digits() -> Seq<char> {
    FIRST@ + SECOND@ + THIRD@ + FOURTH@ + FIFTH@ + SIXTH@ + SEVENTH@ + EIGHTH@ + NINTH@ + TENTH@ + ELEVENTH@ + TWELFTH@
}

/// The digits of all the samples, in their order.
pub fn tone_digits() -> (r: String)
    ensures
        r@ == digits(),
{
    let mut out = String::from_str(FIRST);
    out.append(SECOND);
    out.append(THIRD);
    out.append(FOURTH);
    out.append(FIFTH);
    out.append(SIXTH);
    out.append(SEVENTH);
    out.append(EIGHTH);
    out.append(NINTH);
    out.append(TENTH);
    out.append(ELEVENTH);
    out.append(TWELFTH);
    out
}

} // verus!
